//! Sequences of task ids as mathematical objects: what it means to be a
//! permutation, the elementary moves the operators are built from, and the
//! facts about them that the rest of the library relies on.

use vstd::prelude::*;
use vstd::seq_lib::*;
use vstd::multiset::*;

verus! {

/// `s` lists every id in `0..n` exactly once.
pub open spec fn eh_permutacao(s: Seq<usize>, n: nat) -> bool {
    &&& s.len() == n
    &&& forall|i: int| 0 <= i < s.len() ==> s[i] < n
    &&& s.no_duplicates()
}

/// `a` and `b` hold the same ids the same number of times.
pub open spec fn eh_rearranjo(a: Seq<usize>, b: Seq<usize>) -> bool {
    a.to_multiset() == b.to_multiset()
}

/// The identity permutation `0, 1, .., n - 1`.
pub open spec fn identidade(n: nat) -> Seq<usize> {
    Seq::new(n, |i: int| i as usize)
}

/// `s` with the ids at positions `i` and `j` exchanged.
pub open spec fn troca(s: Seq<usize>, i: int, j: int) -> Seq<usize> {
    s.update(i, s[j]).update(j, s[i])
}

/// `s` with the segment `[i, k)` reversed.
pub open spec fn inverte(s: Seq<usize>, i: int, k: int) -> Seq<usize> {
    s.subrange(0, i) + s.subrange(i, k).reverse() + s.subrange(k, s.len() as int)
}

/// `s` with the id at position `de` taken out and put back at position `para`.
pub open spec fn desloca(s: Seq<usize>, de: int, para: int) -> Seq<usize> {
    s.remove(de).insert(para, s[de])
}

/// Rearranging a permutation gives a permutation.
pub proof fn lemma_rearranjo_de_permutacao(a: Seq<usize>, b: Seq<usize>, n: nat)
    requires
        eh_permutacao(a, n),
        eh_rearranjo(a, b),
    ensures
        eh_permutacao(b, n),
{
    a.to_multiset_ensures();
    b.to_multiset_ensures();
    assert forall|i: int| 0 <= i < b.len() implies b[i] < n by {
        assert(b.contains(b[i]));
        assert(a.to_multiset().count(b[i]) > 0);
        assert(a.contains(b[i]));
    }
    a.lemma_multiset_has_no_duplicates();
    b.lemma_multiset_has_no_duplicates_conv();
}

/// Being a rearrangement is symmetric and transitive.
pub proof fn lemma_rearranjo_transitivo(a: Seq<usize>, b: Seq<usize>, c: Seq<usize>)
    requires
        eh_rearranjo(a, b),
        eh_rearranjo(b, c),
    ensures
        eh_rearranjo(a, c),
        eh_rearranjo(b, a),
{
}

/// Exchanging two positions rearranges the sequence.
pub proof fn lemma_troca_rearranjo(s: Seq<usize>, i: int, j: int)
    requires
        0 <= i < s.len(),
        0 <= j < s.len(),
    ensures
        eh_rearranjo(s, troca(s, i, j)),
        troca(s, i, j).len() == s.len(),
{
    broadcast use group_multiset_axioms;

    let m = s.update(i, s[j]);
    to_multiset_update(s, i, s[j]);
    to_multiset_update(m, j, s[i]);
    s.to_multiset_ensures();
    assert(s.contains(s[i]));
    assert(s.contains(s[j]));
    assert(troca(s, i, j).to_multiset() =~= s.to_multiset());
}

/// Reversing a segment rearranges the sequence.
pub proof fn lemma_inverte_rearranjo(s: Seq<usize>, i: int, k: int)
    requires
        0 <= i <= k <= s.len(),
    ensures
        eh_rearranjo(s, inverte(s, i, k)),
        inverte(s, i, k).len() == s.len(),
{
    let a = s.subrange(0, i);
    let b = s.subrange(i, k);
    let c = s.subrange(k, s.len() as int);
    assert(s =~= a + b + c);
    lemma_multiset_commutative(a + b, c);
    lemma_multiset_commutative(a, b);
    lemma_multiset_commutative(a + b.reverse(), c);
    lemma_multiset_commutative(a, b.reverse());
    b.lemma_reverse_to_multiset();
}

/// Moving one id to another position rearranges the sequence.
pub proof fn lemma_desloca_rearranjo(s: Seq<usize>, de: int, para: int)
    requires
        0 <= de < s.len(),
        0 <= para < s.len(),
    ensures
        eh_rearranjo(s, desloca(s, de, para)),
        desloca(s, de, para).len() == s.len(),
{
    broadcast use group_multiset_axioms;

    to_multiset_remove(s, de);
    to_multiset_insert(s.remove(de), para, s[de]);
    s.to_multiset_ensures();
    assert(s.contains(s[de]));
    assert(desloca(s, de, para).to_multiset() =~= s.to_multiset());
}

/// The identity is a permutation.
pub proof fn lemma_identidade_permutacao(n: nat)
    requires
        n <= usize::MAX,
    ensures
        eh_permutacao(identidade(n), n),
{
}

/// A permutation of `0..n` reaches every id below `n`.
pub proof fn lemma_permutacao_cobre(s: Seq<usize>, n: nat, v: usize)
    requires
        eh_permutacao(s, n),
        v < n,
    ensures
        s.contains(v),
    decreases n,
{
    if !s.contains(v) {
        // Drop the position holding the largest id (or the last position when
        // that id is `v` itself) and look for `v` among the rest.
        let maior = n - 1;
        if v == maior {
            // All ids lie below n - 1: one too many for n positions.
            lemma_sem_espaco(s, (n - 1) as nat);
        } else {
            if exists|p: int| 0 <= p < s.len() && s[p] == maior {
                let p = choose|p: int| 0 <= p < s.len() && s[p] == maior;
                let r = s.remove(p);
                assert forall|i: int| 0 <= i < r.len() implies r[i] < n - 1 by {
                    if i < p {
                        assert(r[i] == s[i]);
                    } else {
                        assert(r[i] == s[i + 1]);
                    }
                }
                assert(r.no_duplicates());
                lemma_permutacao_cobre(r, (n - 1) as nat, v);
                let q = r.index_of(v);
                if q < p {
                    assert(s[q] == v);
                } else {
                    assert(s[q + 1] == v);
                }
                assert(false);
            } else {
                lemma_sem_espaco(s, (n - 1) as nat);
            }
        }
    }
}

/// No sequence without repetitions fits more than `m` ids below `m`.
pub proof fn lemma_sem_espaco(s: Seq<usize>, m: nat)
    requires
        s.no_duplicates(),
        forall|i: int| 0 <= i < s.len() ==> s[i] < m,
    ensures
        s.len() <= m,
    decreases m,
{
    if s.len() > 0 {
        if m == 0 {
            assert(s[0] < m);
        } else {
            let maior = m - 1;
            if exists|p: int| 0 <= p < s.len() && s[p] == maior {
                let p = choose|p: int| 0 <= p < s.len() && s[p] == maior;
                let r = s.remove(p);
                assert forall|i: int| 0 <= i < r.len() implies r[i] < m - 1 by {
                    if i < p {
                        assert(r[i] == s[i]);
                    } else {
                        assert(r[i] == s[i + 1]);
                    }
                }
                lemma_sem_espaco(r, (m - 1) as nat);
            } else {
                lemma_sem_espaco(s, (m - 1) as nat);
            }
        }
    }
}

/// Permutations of `0..n` are the sequences of length `n` in which every id
/// below `n` occurs exactly once.
pub proof fn lemma_permutacao_por_contagem(s: Seq<usize>, n: nat)
    requires
        n <= usize::MAX,
    ensures
        eh_permutacao(s, n) <==> (s.len() == n && forall|v: usize|
            v < n ==> #[trigger] s.to_multiset().count(v) == 1),
{
    s.to_multiset_ensures();
    if eh_permutacao(s, n) {
        s.lemma_multiset_has_no_duplicates();
        assert forall|v: usize| v < n implies #[trigger] s.to_multiset().count(v) == 1 by {
            lemma_permutacao_cobre(s, n, v);
        }
    }
    if s.len() == n && forall|v: usize| v < n ==> #[trigger] s.to_multiset().count(v) == 1 {
        // Where each id sits: a sequence of distinct positions, hence a
        // permutation of the positions, hence onto.
        let onde = Seq::new(n, |v: int| s.index_of(v as usize) as usize);
        assert forall|v: int| 0 <= v < n implies (#[trigger] onde[v]) < n && s[onde[v] as int]
            == v by {
            assert(s.to_multiset().count(v as usize) == 1);
            assert(s.contains(v as usize));
            assert(0 <= s.index_of(v as usize) < n);
        }
        assert forall|a: int, b: int| 0 <= a < n && 0 <= b < n && a != b implies onde[a]
            != onde[b] by {
            assert(s[onde[a] as int] == a);
            assert(s[onde[b] as int] == b);
        }
        assert(eh_permutacao(onde, n));
        assert forall|i: int| 0 <= i < s.len() implies s[i] < n by {
            lemma_permutacao_cobre(onde, n, i as usize);
            let v = onde.index_of(i as usize);
            assert(onde[v] == i);
            assert(s[onde[v] as int] == v);
        }
        assert forall|x: usize| s.to_multiset().contains(x) implies s.to_multiset().count(x)
            == 1 by {
            assert(s.contains(x));
        }
        s.lemma_multiset_has_no_duplicates_conv();
    }
}

/// Fewer than `n` distinct ids below `n` leave one of them out.
pub proof fn lemma_falta_um(s: Seq<usize>, n: nat)
    requires
        s.no_duplicates(),
        forall|i: int| 0 <= i < s.len() ==> s[i] < n,
        s.len() < n <= usize::MAX,
    ensures
        exists|v: usize| v < n && !s.contains(v),
{
    if forall|v: usize| v < n ==> s.contains(v) {
        let onde = Seq::new(n, |v: int| s.index_of(v as usize) as usize);
        assert forall|v: int| 0 <= v < n implies (#[trigger] onde[v]) < s.len() && s[onde[v] as int]
            == v by {
            assert(s.contains(v as usize));
            assert(0 <= s.index_of(v as usize) < s.len());
        }
        assert forall|a: int, b: int| 0 <= a < n && 0 <= b < n && a != b implies onde[a]
            != onde[b] by {
            assert(s[onde[a] as int] == a);
            assert(s[onde[b] as int] == b);
        }
        lemma_sem_espaco(onde, s.len());
    }
}

/// Exchanges the ids at positions `i` and `j`.
pub fn troca_em(seq: &mut Vec<usize>, i: usize, j: usize)
    requires
        i < old(seq).len(),
        j < old(seq).len(),
    ensures
        final(seq)@ == troca(old(seq)@, i as int, j as int),
        eh_rearranjo(old(seq)@, final(seq)@),
{
    proof {
        lemma_troca_rearranjo(seq@, i as int, j as int);
    }
    let a: usize = seq[i];
    let b: usize = seq[j];
    seq[i] = b;
    seq[j] = a;
}

/// Reverses the segment `[i, k)`.
pub fn inverte_em(seq: &mut Vec<usize>, i: usize, k: usize)
    requires
        i <= k <= old(seq).len(),
    ensures
        final(seq)@ == inverte(old(seq)@, i as int, k as int),
        eh_rearranjo(old(seq)@, final(seq)@),
{
    let ghost antes = seq@;
    let mut a: usize = i;
    let mut b: usize = k;
    while b - a > 1
        invariant
            i <= a <= b <= k <= seq.len(),
            a - i == k - b,
            seq.len() == antes.len(),
            forall|x: int| 0 <= x < i || k <= x < seq.len() ==> seq[x] == antes[x],
            forall|x: int| a <= x < b ==> seq[x] == antes[x],
            forall|x: int| i <= x < a || b <= x < k ==> seq[x] == antes[i + k - 1 - x],
        decreases b - a,
    {
        let x: usize = seq[a];
        let y: usize = seq[b - 1];
        seq[a] = y;
        seq[b - 1] = x;
        a = a + 1;
        b = b - 1;
    }
    proof {
        assert(seq@ =~= inverte(antes, i as int, k as int));
        lemma_inverte_rearranjo(antes, i as int, k as int);
    }
}

/// Takes the id at position `de` out and puts it back at position `para`.
pub fn desloca_em(seq: &mut Vec<usize>, de: usize, para: usize)
    requires
        de < old(seq).len(),
        para < old(seq).len(),
    ensures
        final(seq)@ == desloca(old(seq)@, de as int, para as int),
        eh_rearranjo(old(seq)@, final(seq)@),
{
    proof {
        lemma_desloca_rearranjo(seq@, de as int, para as int);
    }
    let t: usize = seq.remove(de);
    seq.insert(para, t);
}

} // verus!
