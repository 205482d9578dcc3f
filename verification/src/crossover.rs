//! The two crossover operators on given cut points.
//!
//! Both take two parents, which are permutations of the same ids, and a
//! segment `[lo, hi)`, and give a child that is again a permutation.

use vstd::prelude::*;
use crate::instancia::Sequencia;
use crate::permutacao::{
    eh_permutacao, lemma_permutacao_cobre, lemma_rearranjo_de_permutacao, lemma_troca_rearranjo,
    troca,
};

verus! {

/// One step of the partially-mapped crossover: bring `valor` to position
/// `i` by exchanging it with whatever sits there.
pub open spec fn pmx_passo(genes: Seq<usize>, valor: usize, i: int) -> Seq<usize> {
    troca(genes, i, genes.index_of(valor))
}

/// Partially-mapped crossover: starting from `pai1`, bring to each position
/// of `[lo, hi)`, from left to right, the id that `pai2` has there.
pub open spec fn pmx(pai1: Seq<usize>, pai2: Seq<usize>, lo: int, hi: int) -> Seq<usize>
    decreases hi - lo,
{
    if hi <= lo {
        pai1
    } else {
        pmx_passo(pmx(pai1, pai2, lo, hi - 1), pai2[hi - 1], hi - 1)
    }
}

/// The partially-mapped crossover of two permutations is a permutation that
/// agrees with the second parent on the segment.
pub proof fn lemma_pmx_permutacao(pai1: Seq<usize>, pai2: Seq<usize>, n: nat, lo: int, hi: int)
    requires
        eh_permutacao(pai1, n),
        eh_permutacao(pai2, n),
        0 <= lo <= hi <= n,
    ensures
        eh_permutacao(pmx(pai1, pai2, lo, hi), n),
        forall|j: int| lo <= j < hi ==> pmx(pai1, pai2, lo, hi)[j] == pai2[j],
    decreases hi - lo,
{
    if hi > lo {
        let antes = pmx(pai1, pai2, lo, hi - 1);
        let valor = pai2[hi - 1];
        lemma_pmx_permutacao(pai1, pai2, n, lo, hi - 1);
        lemma_permutacao_cobre(antes, n, valor);
        let p = antes.index_of(valor);
        lemma_troca_rearranjo(antes, hi - 1, p);
        lemma_rearranjo_de_permutacao(antes, troca(antes, hi - 1, p), n);
        assert forall|j: int| lo <= j < hi implies pmx(pai1, pai2, lo, hi)[j] == pai2[j] by {
            if j < hi - 1 {
                assert(antes[j] == pai2[j]);
                assert(p != j);
            }
        }
    }
}

/// Partially-mapped crossover on the segment `[xbegin, xend)`.
pub fn pmx_em(pai1: &Sequencia, pai2: &Sequencia, xbegin: usize, xend: usize) -> (genes: Sequencia)
    requires
        eh_permutacao(pai1@, pai1@.len()),
        eh_permutacao(pai2@, pai1@.len()),
        xbegin <= xend <= pai1@.len(),
    ensures
        genes@ == pmx(pai1@, pai2@, xbegin as int, xend as int),
        eh_permutacao(genes@, pai1@.len()),
        forall|j: int| xbegin <= j < xend ==> genes[j] == pai2[j],
{
    let num_tarefas: usize = pai1.len();
    let mut genes: Vec<usize> = pai1.clone();
    assert(genes@ =~= pai1@);
    let mut map: Vec<usize> = Vec::new();
    let mut i: usize = 0;
    while i < num_tarefas
        invariant
            0 <= i <= num_tarefas,
            map.len() == i,
        decreases num_tarefas - i,
    {
        map.push(0);
        i = i + 1;
    }
    let mut i: usize = 0;
    while i < num_tarefas
        invariant
            0 <= i <= num_tarefas,
            num_tarefas == genes.len(),
            map.len() == num_tarefas,
            eh_permutacao(genes@, num_tarefas as nat),
            forall|j: int| 0 <= j < i ==> map[genes[j] as int] == j,
        decreases num_tarefas - i,
    {
        let vert: usize = genes[i];
        map[vert] = i;
        i = i + 1;
    }
    proof {
        assert forall|v: int| 0 <= v < num_tarefas implies 0 <= #[trigger] map[v] < num_tarefas
            && genes[map[v] as int] == v by {
            lemma_permutacao_cobre(genes@, num_tarefas as nat, v as usize);
            let j = genes@.index_of(v as usize);
            assert(map[genes[j] as int] == j);
        }
    }
    let mut i: usize = xbegin;
    while i < xend
        invariant
            xbegin <= i <= xend <= num_tarefas,
            num_tarefas == genes.len(),
            num_tarefas == pai1.len(),
            map.len() == num_tarefas,
            eh_permutacao(genes@, num_tarefas as nat),
            eh_permutacao(pai2@, num_tarefas as nat),
            forall|v: int|
                0 <= v < num_tarefas ==> 0 <= #[trigger] map[v] < num_tarefas && genes[map[v] as int]
                    == v,
            genes@ == pmx(pai1@, pai2@, xbegin as int, i as int),
            forall|j: int| xbegin <= j < i ==> genes[j] == pai2[j],
        decreases xend - i,
    {
        let value: usize = pai2[i];
        let idx: usize = map[value];
        let ghost antes = genes@;
        proof {
            assert(antes[idx as int] == value);
            assert(antes.index_of(value) == idx);
            lemma_troca_rearranjo(antes, i as int, idx as int);
            lemma_rearranjo_de_permutacao(antes, troca(antes, i as int, idx as int), num_tarefas as nat);
        }
        let antigo: usize = genes[i];
        genes[i] = value;
        genes[idx] = antigo;
        map[value] = i;
        map[antigo] = idx;
        proof {
            assert(genes@ =~= troca(antes, i as int, idx as int));
            assert forall|j: int| xbegin <= j < i + 1 implies genes[j] == pai2[j] by {
                if j < i {
                    assert(antes[j] == pai2[j]);
                    assert(idx != j);
                }
            }
        }
        i = i + 1;
    }
    genes
}

/// The ids of `pai2` that do not occur in `trecho`, in the order of `pai2`.
pub open spec fn ox_resto(trecho: Seq<usize>, pai2: Seq<usize>) -> Seq<usize> {
    pai2.filter(|v: usize| !trecho.contains(v))
}

/// Order crossover: the child keeps the segment `[lo, hi)` of `pai1` where
/// it is, and fills the other positions, left to right, with the remaining
/// ids in the order in which `pai2` has them.
pub open spec fn ox(pai1: Seq<usize>, pai2: Seq<usize>, lo: int, hi: int) -> Seq<usize> {
    let trecho = pai1.subrange(lo, hi);
    let resto = ox_resto(trecho, pai2);
    resto.subrange(0, lo) + trecho + resto.subrange(lo, resto.len() as int)
}

/// A filter and its complement split a sequence.
proof fn lemma_filtro_particao(s: Seq<usize>, p: spec_fn(usize) -> bool, q: spec_fn(usize) -> bool)
    requires
        forall|v: usize| #[trigger] p(v) == !q(v),
    ensures
        s.filter(p).len() + s.filter(q).len() == s.len(),
    decreases s.len(),
{
    reveal(Seq::filter);
    if s.len() > 0 {
        lemma_filtro_particao(s.drop_last(), p, q);
    }
}

/// Filtering a sequence without repetitions leaves no repetitions.
proof fn lemma_filtro_sem_repeticao(s: Seq<usize>, p: spec_fn(usize) -> bool)
    requires
        s.no_duplicates(),
    ensures
        s.filter(p).no_duplicates(),
    decreases s.len(),
{
    reveal(Seq::filter);
    if s.len() > 0 {
        let antes = s.drop_last();
        lemma_filtro_sem_repeticao(antes, p);
        if p(s.last()) {
            let f = antes.filter(p);
            if f.contains(s.last()) {
                antes.lemma_filter_contains_rev(p, s.last());
                let k = antes.index_of(s.last());
                assert(s[k] == s[s.len() - 1]);
            }
            assert forall|i: int, j: int| 0 <= i < j < f.push(s.last()).len() implies f.push(
                s.last(),
            )[i] != f.push(s.last())[j] by {
                if j == f.len() {
                    assert(f.contains(f[i]));
                }
            }
        }
    }
}

/// What is left of the second parent once the segment of the first is taken
/// out: as many ids as there are positions outside the segment, none of them
/// twice, none of them in the segment.
pub proof fn lemma_ox_resto(pai1: Seq<usize>, pai2: Seq<usize>, n: nat, lo: int, hi: int)
    requires
        eh_permutacao(pai1, n),
        eh_permutacao(pai2, n),
        0 <= lo <= hi <= n,
    ensures
        ox_resto(pai1.subrange(lo, hi), pai2).len() == n - (hi - lo),
        ox_resto(pai1.subrange(lo, hi), pai2).no_duplicates(),
        forall|i: int|
            0 <= i < ox_resto(pai1.subrange(lo, hi), pai2).len() ==> {
                &&& (#[trigger] ox_resto(pai1.subrange(lo, hi), pai2)[i]) < n
                &&& !pai1.subrange(lo, hi).contains(ox_resto(pai1.subrange(lo, hi), pai2)[i])
            },
{
    let trecho = pai1.subrange(lo, hi);
    let fora = |v: usize| !trecho.contains(v);
    let dentro = |v: usize| trecho.contains(v);
    let resto = pai2.filter(fora);
    let tirados = pai2.filter(dentro);
    lemma_filtro_particao(pai2, fora, dentro);
    lemma_filtro_sem_repeticao(pai2, fora);
    lemma_filtro_sem_repeticao(pai2, dentro);
    broadcast use vstd::seq_lib::group_filter_ensures;

    assert forall|x: usize| tirados.contains(x) <==> trecho.contains(x) by {
        if tirados.contains(x) {
            let i = tirados.index_of(x);
            assert(dentro(tirados[i]));
        }
        if trecho.contains(x) {
            let k = trecho.index_of(x);
            assert(trecho[k] == pai1[lo + k]);
            lemma_permutacao_cobre(pai2, n, x);
            let m = pai2.index_of(x);
            assert(dentro(pai2[m]));
            assert(tirados.contains(pai2[m]));
        }
    }
    assert(tirados.to_set() =~= trecho.to_set());
    assert(trecho.no_duplicates());
    tirados.unique_seq_to_set();
    trecho.unique_seq_to_set();
    assert forall|i: int| 0 <= i < resto.len() implies (#[trigger] resto[i]) < n
        && !trecho.contains(resto[i]) by {
        assert(fora(resto[i]));
        assert(resto.contains(resto[i]));
        pai2.lemma_filter_contains_rev(fora, resto[i]);
        let m = pai2.index_of(resto[i]);
        assert(pai2[m] < n);
    }
}

/// The order crossover of two permutations is a permutation that agrees with
/// the first parent on the segment.
pub proof fn lemma_ox_permutacao(pai1: Seq<usize>, pai2: Seq<usize>, n: nat, lo: int, hi: int)
    requires
        eh_permutacao(pai1, n),
        eh_permutacao(pai2, n),
        0 <= lo <= hi <= n,
    ensures
        eh_permutacao(ox(pai1, pai2, lo, hi), n),
        forall|j: int| lo <= j < hi ==> ox(pai1, pai2, lo, hi)[j] == pai1[j],
{
    let trecho = pai1.subrange(lo, hi);
    let resto = ox_resto(trecho, pai2);
    let filho = ox(pai1, pai2, lo, hi);
    lemma_ox_resto(pai1, pai2, n, lo, hi);
    assert(filho.len() == n);
    assert forall|j: int| 0 <= j < n implies #[trigger] filho[j] == (if j < lo {
        resto[j]
    } else if j < hi {
        pai1[j]
    } else {
        resto[j - (hi - lo)]
    }) by {}
    assert forall|j: int| 0 <= j < n implies filho[j] < n by {}
    assert forall|a: int, b: int| 0 <= a < n && 0 <= b < n && a != b implies filho[a]
        != filho[b] by {
        let dentro_a = lo <= a < hi;
        let dentro_b = lo <= b < hi;
        let ra = if a < lo { a } else { a - (hi - lo) };
        let rb = if b < lo { b } else { b - (hi - lo) };
        if dentro_a && !dentro_b {
            assert(trecho[a - lo] == pai1[a]);
            assert(!trecho.contains(resto[rb]));
        } else if !dentro_a && dentro_b {
            assert(trecho[b - lo] == pai1[b]);
            assert(!trecho.contains(resto[ra]));
        } else if !dentro_a && !dentro_b {
            assert(resto[ra] != resto[rb]);
        }
    }
}

/// Order crossover on the segment `[xbegin, xend)`.
pub fn ox_em(pai1: &Sequencia, pai2: &Sequencia, xbegin: usize, xend: usize) -> (filho: Sequencia)
    requires
        eh_permutacao(pai1@, pai1@.len()),
        eh_permutacao(pai2@, pai1@.len()),
        xbegin <= xend <= pai1@.len(),
    ensures
        filho@ == ox(pai1@, pai2@, xbegin as int, xend as int),
        eh_permutacao(filho@, pai1@.len()),
        forall|j: int| xbegin <= j < xend ==> filho[j] == pai1[j],
{
    let num_tarefas: usize = pai1.len();
    let ghost trecho = pai1@.subrange(xbegin as int, xend as int);
    let ghost fora = |v: usize| !trecho.contains(v);

    let mut marcados: Vec<bool> = Vec::new();
    let mut i: usize = 0;
    while i < num_tarefas
        invariant
            0 <= i <= num_tarefas,
            marcados.len() == i,
            forall|v: int| 0 <= v < i ==> !marcados[v],
        decreases num_tarefas - i,
    {
        marcados.push(false);
        i = i + 1;
    }
    // Mark the ids of the segment.
    let mut i: usize = xbegin;
    while i < xend
        invariant
            xbegin <= i <= xend <= num_tarefas,
            num_tarefas == pai1.len(),
            marcados.len() == num_tarefas,
            eh_permutacao(pai1@, num_tarefas as nat),
            forall|v: int|
                0 <= v < num_tarefas ==> (#[trigger] marcados[v] <==> pai1@.subrange(
                    xbegin as int,
                    i as int,
                ).contains(v as usize)),
        decreases xend - i,
    {
        let ghost antes = pai1@.subrange(xbegin as int, i as int);
        let id: usize = pai1[i];
        marcados[id] = true;
        proof {
            let depois = pai1@.subrange(xbegin as int, i + 1);
            assert(depois =~= antes.push(id));
            assert forall|v: int| 0 <= v < num_tarefas implies (#[trigger] marcados[v]
                <==> depois.contains(v as usize)) by {
                if antes.contains(v as usize) {
                    let k = antes.index_of(v as usize);
                    assert(depois[k] == v);
                }
                if v == id {
                    assert(depois[i - xbegin] == id);
                }
                if depois.contains(v as usize) && v != id {
                    let k = depois.index_of(v as usize);
                    assert(antes[k] == v);
                }
            }
        }
        i = i + 1;
    }
    // What is left of the second parent, in its order.
    let mut resto: Vec<usize> = Vec::new();
    let mut i: usize = 0;
    proof {
        reveal(Seq::filter);
        assert(pai2@.take(0).filter(fora) =~= Seq::<usize>::empty());
    }
    while i < num_tarefas
        invariant
            0 <= i <= num_tarefas,
            num_tarefas == pai2.len(),
            marcados.len() == num_tarefas,
            eh_permutacao(pai2@, num_tarefas as nat),
            trecho == pai1@.subrange(xbegin as int, xend as int),
            fora == |v: usize| !trecho.contains(v),
            forall|v: int|
                0 <= v < num_tarefas ==> (#[trigger] marcados[v] <==> trecho.contains(v as usize)),
            resto@ == pai2@.take(i as int).filter(fora),
        decreases num_tarefas - i,
    {
        let id: usize = pai2[i];
        proof {
            assert(pai2@.take(i + 1) =~= pai2@.take(i as int).push(id));
            pai2@.take(i as int).lemma_filter_push(id, fora);
            assert(fora(id) == !marcados[id as int]);
        }
        if !marcados[id] {
            resto.push(id);
        }
        i = i + 1;
    }
    proof {
        assert(pai2@.take(num_tarefas as int) =~= pai2@);
        assert(resto@ == ox_resto(trecho, pai2@));
        lemma_ox_resto(pai1@, pai2@, num_tarefas as nat, xbegin as int, xend as int);
        lemma_ox_permutacao(pai1@, pai2@, num_tarefas as nat, xbegin as int, xend as int);
    }
    let mut filho: Vec<usize> = Vec::new();
    let mut j: usize = 0;
    while j < num_tarefas
        invariant
            0 <= j <= num_tarefas,
            xbegin <= xend <= num_tarefas,
            num_tarefas == pai1.len(),
            resto.len() == num_tarefas - (xend - xbegin),
            filho.len() == j,
            forall|k: int|
                0 <= k < j ==> #[trigger] filho[k] == (if k < xbegin {
                    resto[k]
                } else if k < xend {
                    pai1[k]
                } else {
                    resto[k - (xend - xbegin)]
                }),
        decreases num_tarefas - j,
    {
        if j < xbegin {
            filho.push(resto[j]);
        } else if j < xend {
            filho.push(pai1[j]);
        } else {
            filho.push(resto[j - (xend - xbegin)]);
        }
        j = j + 1;
    }
    assert(filho@ =~= ox(pai1@, pai2@, xbegin as int, xend as int));
    filho
}

} // verus!
