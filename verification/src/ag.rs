//! The genetic algorithm: a ranked population of solutions that is
//! recombined and mutated generation after generation.

use vstd::prelude::*;
use std::time::{Duration, Instant};
use crate::crossover::{lemma_ox_permutacao, lemma_pmx_permutacao, ox, ox_em, pmx, pmx_em};
use crate::custo::{custo, ha_mais_caro, instancia_valida, lemma_custo_finito, DadosTarefa};
use crate::fracao::Fracao;
use crate::instancia::{IdTarefa, Instancia, Sequencia, Solucao};
use crate::ordenacao::{eh_ordem_estavel, ordem_estavel};
use crate::parada::Progresso;
use crate::permutacao::{
    eh_permutacao, eh_rearranjo, identidade, inverte, inverte_em, lemma_identidade_permutacao,
    lemma_inverte_rearranjo, lemma_rearranjo_de_permutacao, lemma_troca_rearranjo, troca, troca_em,
};
use crate::relogio::{dentro_do_prazo, nanos_de};
use crate::roleta::{
    acumulado, eh_escolhido, eh_primeiro_nulo, eh_roleta, indice_na_roleta,
    lemma_acumulado_limitado, peso, pode_sair, sorteio_largo, tem_nulo, ESCALA,
};
use crate::sorteio::{embaralha, novo_gerador, sorteia};

verus! {

/// A population: solutions, cheapest first.
pub type Populacao = Vec<Solucao>;

/// How two parents are recombined.
#[derive(Clone, Copy, Debug)]
pub enum Cruzamento {
    /// Order crossover.
    OX,
    /// Partially-mapped crossover.
    PMX,
}

/// How a child is mutated.
#[derive(Clone, Copy, Debug)]
pub enum Mutacao {
    /// Exchange two positions.
    Swap,
    /// Reverse a segment.
    TwoOpt,
}

/// The pairs of cut points that can be drawn for a sequence of length `n`:
/// `lo <= hi`, both below `n`; for the empty sequence, both zero.
pub open spec fn cortes_possiveis(n: nat, lo: int, hi: int) -> bool {
    &&& 0 <= lo <= hi
    &&& if n == 0 {
        hi == 0
    } else {
        hi < n
    }
}

/// The child that `cruz` makes of two parents on the segment `[lo, hi)`.
pub open spec fn filho_em(
    cruz: Cruzamento,
    pai1: Seq<usize>,
    pai2: Seq<usize>,
    lo: int,
    hi: int,
) -> Seq<usize> {
    match cruz {
        Cruzamento::PMX => pmx(pai1, pai2, lo, hi),
        Cruzamento::OX => ox(pai1, pai2, lo, hi),
    }
}

/// `filho` is what `cruz` makes of the parents for some cut points.
pub open spec fn eh_filho(
    cruz: Cruzamento,
    pai1: Seq<usize>,
    pai2: Seq<usize>,
    filho: Seq<usize>,
) -> bool {
    exists|lo: int, hi: int| #[trigger]
        cortes_possiveis(pai1.len(), lo, hi) && filho == filho_em(cruz, pai1, pai2, lo, hi)
}

/// The sequence that `metodo` makes of `s` on the positions `i <= k`.
pub open spec fn mutante_em(metodo: Mutacao, s: Seq<usize>, i: int, k: int) -> Seq<usize> {
    match metodo {
        Mutacao::Swap => troca(s, i, k),
        Mutacao::TwoOpt => inverte(s, i, k),
    }
}

/// `r` is what `metodo` makes of `s` for some pair of positions; the empty
/// sequence has no positions and stays as it is.
pub open spec fn eh_mutante(metodo: Mutacao, s: Seq<usize>, r: Seq<usize>) -> bool {
    if s.len() == 0 {
        r == s
    } else {
        exists|i: int, k: int| #[trigger]
            cortes_possiveis(s.len(), i, k) && r == mutante_em(metodo, s, i, k)
    }
}

/// Whatever the cut points, either crossover makes a permutation out of two
/// permutations.
pub proof fn lemma_filho_permutacao(
    cruz: Cruzamento,
    pai1: Seq<usize>,
    pai2: Seq<usize>,
    filho: Seq<usize>,
    n: nat,
)
    requires
        eh_permutacao(pai1, n),
        eh_permutacao(pai2, n),
        eh_filho(cruz, pai1, pai2, filho),
    ensures
        eh_permutacao(filho, n),
{
    let (lo, hi) = choose|lo: int, hi: int| #[trigger]
        cortes_possiveis(pai1.len(), lo, hi) && filho == filho_em(cruz, pai1, pai2, lo, hi);
    match cruz {
        Cruzamento::PMX => lemma_pmx_permutacao(pai1, pai2, n, lo, hi),
        Cruzamento::OX => lemma_ox_permutacao(pai1, pai2, n, lo, hi),
    }
}

/// Whatever the positions, either mutation rearranges the sequence, and so
/// makes a permutation out of a permutation.
pub proof fn lemma_mutante_permutacao(metodo: Mutacao, s: Seq<usize>, r: Seq<usize>, n: nat)
    requires
        eh_mutante(metodo, s, r),
    ensures
        eh_rearranjo(s, r),
        eh_permutacao(s, n) ==> eh_permutacao(r, n),
{
    if s.len() > 0 {
        let (i, k) = choose|i: int, k: int| #[trigger]
            cortes_possiveis(s.len(), i, k) && r == mutante_em(metodo, s, i, k);
        match metodo {
            Mutacao::Swap => lemma_troca_rearranjo(s, i, k),
            Mutacao::TwoOpt => lemma_inverte_rearranjo(s, i, k),
        }
    }
    if eh_permutacao(s, n) {
        lemma_rearranjo_de_permutacao(s, r, n);
    }
}

/// The cut points that two draws give for a sequence of `num_tarefas` ids:
/// both draws reduced modulo the length, the smaller first. Without ids
/// there is nothing to cut: both points are zero.
pub fn ordena_pontos(a: usize, b: usize, num_tarefas: usize) -> (r: (IdTarefa, IdTarefa))
    ensures
        num_tarefas == 0 ==> r == (0usize, 0usize),
        num_tarefas > 0 ==> {
            let i = a % num_tarefas;
            let j = b % num_tarefas;
            r == (if i <= j { (i, j) } else { (j, i) })
        },
        cortes_possiveis(num_tarefas as nat, r.0 as int, r.1 as int),
{
    if num_tarefas == 0 {
        return (0, 0);
    }
    let i: usize = a % num_tarefas;
    let j: usize = b % num_tarefas;
    if i <= j {
        (i, j)
    } else {
        (j, i)
    }
}

/// Two cut points for a sequence of `num_tarefas` ids, drawn independently
/// and ordered. Every possible pair can come out, and no other.
pub fn gen_points(rng: &mut rand::XorShiftRng, num_tarefas: usize) -> (r: (IdTarefa, IdTarefa))
    ensures
        cortes_possiveis(num_tarefas as nat, r.0 as int, r.1 as int),
{
    let a: usize = sorteia(rng);
    let b: usize = sorteia(rng);
    ordena_pontos(a, b, num_tarefas)
}

/// Partially-mapped crossover on cut points drawn from `rng`.
pub fn pmx_crossover(rng: &mut rand::XorShiftRng, pai1: &Sequencia, pai2: &Sequencia) -> (genes:
    Sequencia)
    requires
        eh_permutacao(pai1@, pai1@.len()),
        eh_permutacao(pai2@, pai1@.len()),
    ensures
        eh_filho(Cruzamento::PMX, pai1@, pai2@, genes@),
        eh_permutacao(genes@, pai1@.len()),
{
    let num_tarefas: usize = pai1.len();
    let (xbegin, xend) = gen_points(rng, num_tarefas);
    let genes = pmx_em(pai1, pai2, xbegin, xend);
    assert(cortes_possiveis(pai1@.len(), xbegin as int, xend as int));
    genes
}

/// Order crossover on cut points drawn from `rng`.
pub fn ordered_crossover(rng: &mut rand::XorShiftRng, pai1: &Sequencia, pai2: &Sequencia) -> (filho:
    Sequencia)
    requires
        eh_permutacao(pai1@, pai1@.len()),
        eh_permutacao(pai2@, pai1@.len()),
    ensures
        eh_filho(Cruzamento::OX, pai1@, pai2@, filho@),
        eh_permutacao(filho@, pai1@.len()),
{
    let num_tarefas: usize = pai1.len();
    let (xbegin, xend) = gen_points(rng, num_tarefas);
    let filho = ox_em(pai1, pai2, xbegin, xend);
    assert(cortes_possiveis(pai1@.len(), xbegin as int, xend as int));
    filho
}

/// The parents of one generation: each pair holds two permutations of the
/// same ids.
pub open spec fn pais_validos(pais: Seq<(&Sequencia, &Sequencia)>) -> bool {
    forall|k: int|
        0 <= k < pais.len() ==> eh_permutacao(
            (#[trigger] pais[k]).0@,
            pais[k].0@.len(),
        ) && eh_permutacao(pais[k].1@, pais[k].0@.len())
}

/// `filho` can be the `i`-th child of the parents: children `2k` and
/// `2k + 1` come from pair `k`, the second with the parents exchanged.
pub open spec fn eh_filho_de_ordem(
    cruz: Cruzamento,
    pais: Seq<(&Sequencia, &Sequencia)>,
    i: int,
    filho: Seq<usize>,
) -> bool {
    let par = pais[i / 2];
    if i % 2 == 0 {
        eh_filho(cruz, par.0@, par.1@, filho)
    } else {
        eh_filho(cruz, par.1@, par.0@, filho)
    }
}

/// Two children for each pair of parents: the crossover of the pair, then
/// the crossover of the pair the other way round.
pub fn cruzamento(
    rng: &mut rand::XorShiftRng,
    cruz: Cruzamento,
    pais: Vec<(&Sequencia, &Sequencia)>,
) -> (filhos: Vec<Sequencia>)
    requires
        pais_validos(pais@),
    ensures
        filhos.len() == 2 * pais.len(),
        forall|i: int|
            0 <= i < filhos.len() ==> eh_filho_de_ordem(cruz, pais@, i, #[trigger] filhos[i]@),
        forall|i: int|
            0 <= i < filhos.len() ==> eh_permutacao(#[trigger] filhos[i]@, pais[i / 2].0@.len()),
{
    let mut filhos: Vec<Sequencia> = Vec::new();
    let mut k: usize = 0;
    while k < pais.len()
        invariant
            0 <= k <= pais.len(),
            pais_validos(pais@),
            filhos.len() == 2 * k,
            forall|i: int|
                0 <= i < filhos.len() ==> eh_filho_de_ordem(cruz, pais@, i, #[trigger] filhos[i]@),
            forall|i: int|
                0 <= i < filhos.len() ==> eh_permutacao(
                    #[trigger] filhos[i]@,
                    pais[i / 2].0@.len(),
                ),
        decreases pais.len() - k,
    {
        let pai1: &Sequencia = pais[k].0;
        let pai2: &Sequencia = pais[k].1;
        assert(eh_permutacao(pais[k as int].0@, pais[k as int].0@.len()));
        let (a, b) = match cruz {
            Cruzamento::PMX => (pmx_crossover(rng, pai1, pai2), pmx_crossover(rng, pai2, pai1)),
            Cruzamento::OX => (
                ordered_crossover(rng, pai1, pai2),
                ordered_crossover(rng, pai2, pai1),
            ),
        };
        filhos.push(a);
        filhos.push(b);
        k = k + 1;
    }
    filhos
}

/// Exchanges two positions drawn from `rng`.
pub fn swap_vertices(rng: &mut rand::XorShiftRng, sequencia: Sequencia) -> (r: Sequencia)
    ensures
        eh_mutante(Mutacao::Swap, sequencia@, r@),
        eh_rearranjo(sequencia@, r@),
{
    let mut sequencia = sequencia;
    let ghost antes = sequencia@;
    let (i, j) = gen_points(rng, sequencia.len());
    if sequencia.len() > 0 {
        troca_em(&mut sequencia, i, j);
        assert(cortes_possiveis(antes.len(), i as int, j as int));
    }
    sequencia
}

/// Reverses a segment whose ends are drawn from `rng`.
pub fn two_opt_aleatorio(rng: &mut rand::XorShiftRng, sequencia: Sequencia) -> (r: Sequencia)
    ensures
        eh_mutante(Mutacao::TwoOpt, sequencia@, r@),
        eh_rearranjo(sequencia@, r@),
{
    let mut sequencia = sequencia;
    let ghost antes = sequencia@;
    let (i, k) = gen_points(rng, sequencia.len());
    if sequencia.len() > 0 {
        inverte_em(&mut sequencia, i, k);
        assert(cortes_possiveis(antes.len(), i as int, k as int));
    }
    sequencia
}

/// Mutates the sequence with `metodo_mut` when `mutar` says so.
pub fn aplica_mutacao(
    rng: &mut rand::XorShiftRng,
    sequencia: Sequencia,
    mutar: bool,
    metodo_mut: Mutacao,
) -> (r: Sequencia)
    ensures
        !mutar ==> r@ == sequencia@,
        mutar ==> eh_mutante(metodo_mut, sequencia@, r@),
        eh_rearranjo(sequencia@, r@),
{
    if mutar {
        match metodo_mut {
            Mutacao::Swap => swap_vertices(rng, sequencia),
            Mutacao::TwoOpt => two_opt_aleatorio(rng, sequencia),
        }
    } else {
        sequencia
    }
}

/// `r` is what can come of `s` when it is mutated with `metodo` at the rate
/// `taxa`: `s` itself, unless the rate is one, or a mutant of `s`, unless
/// the rate is zero.
pub open spec fn eh_mutado(
    metodo: Mutacao,
    taxa: crate::fracao::Razao,
    s: Seq<usize>,
    r: Seq<usize>,
) -> bool {
    ||| r == s && taxa.num < taxa.den
    ||| eh_mutante(metodo, s, r) && taxa.num > 0
}

/// Mutates the sequence with `metodo_mut` with probability `mut_chance`.
pub fn mutacao(
    rng: &mut rand::XorShiftRng,
    sequencia: Sequencia,
    mut_chance: &Fracao,
    metodo_mut: Mutacao,
) -> (r: Sequencia)
    ensures
        eh_mutado(metodo_mut, mut_chance@, sequencia@, r@),
        r@ == sequencia@ || eh_mutante(metodo_mut, sequencia@, r@),
        mut_chance@.num == 0 ==> r@ == sequencia@,
        mut_chance@.num == mut_chance@.den ==> eh_mutante(metodo_mut, sequencia@, r@),
        eh_rearranjo(sequencia@, r@),
{
    let sorteio: usize = sorteia(rng);
    let mutar = mut_chance.acerta(sorteio);
    aplica_mutacao(rng, sequencia, mutar, metodo_mut)
}

/// The costs of a population, in its order.
pub open spec fn custos_de(pop: Seq<Solucao>) -> Seq<int> {
    Seq::new(pop.len(), |i: int| pop[i]@.fo)
}

/// The wheel of a population: the partial sums of the weights of its
/// individuals.
pub fn gen_roleta(pop: &Populacao) -> (roleta: Vec<u128>)
    ensures
        eh_roleta(custos_de(pop@), roleta@),
{
    let n: usize = pop.len();
    let ghost custos = custos_de(pop@);
    let mut z: usize = 0;
    while z < n && pop[z].fo() > 0
        invariant
            0 <= z <= n,
            n == pop.len(),
            custos == custos_de(pop@),
            forall|j: int| 0 <= j < z ==> custos[j] > 0,
        decreases n - z,
    {
        z = z + 1;
    }
    proof {
        if z < n {
            assert(eh_primeiro_nulo(custos, z as int));
        } else {
            assert(!tem_nulo(custos));
        }
    }
    let mut roleta: Vec<u128> = Vec::new();
    let mut soma: u128 = 0;
    let mut k: usize = 0;
    while k < n
        invariant
            0 <= k <= n,
            0 <= z <= n,
            n == pop.len(),
            custos == custos_de(pop@),
            z < n ==> eh_primeiro_nulo(custos, z as int),
            z == n ==> !tem_nulo(custos),
            roleta.len() == k,
            soma == acumulado(custos, k as int),
            forall|j: int| 0 <= j < k ==> #[trigger] roleta[j] == acumulado(custos, j + 1),
        decreases n - k,
    {
        let fo: i32 = pop[k].fo();
        proof {
            lemma_acumulado_limitado(custos, k + 1);
            assert((k + 1) * ESCALA <= 0x1_0000_0000_0000_0000 * ESCALA) by (nonlinear_arith)
                requires
                    k + 1 <= 0x1_0000_0000_0000_0000,
            ;
            if z < n {
                assert(tem_nulo(custos));
                assert(eh_primeiro_nulo(custos, k as int) <==> k == z);
            } else {
                if fo <= 0 {
                    crate::roleta::lemma_existe_primeiro_nulo(custos, k as int);
                }
            }
        }
        let w: u128 = if z < n {
            if k == z {
                1
            } else {
                0
            }
        } else {
            ESCALA / (fo as u128)
        };
        assert(w == peso(custos, k as int));
        soma = soma + w;
        roleta.push(soma);
        k = k + 1;
    }
    roleta
}

/// The individual that two draws pick on the wheel: together they give a
/// target below the total of the wheel, and the target picks. An empty wheel
/// and a wheel without weight pick the first individual.
pub fn escolhe_na_roleta(roleta: &Vec<u128>, alto: usize, baixo: usize) -> (k: usize)
    ensures
        roleta.len() == 0 ==> k == 0,
        roleta.len() > 0 && roleta[roleta.len() - 1] == 0 ==> k == 0,
        roleta.len() > 0 && roleta[roleta.len() - 1] > 0 ==> eh_escolhido(
            roleta@,
            (sorteio_largo_de(alto, baixo) % (roleta[roleta.len() - 1] as int)) as u128,
            k as int,
        ),
        k == 0 || k < roleta.len(),
{
    let n: usize = roleta.len();
    if n == 0 {
        return 0;
    }
    let total: u128 = roleta[n - 1];
    if total == 0 {
        return 0;
    }
    let alvo: u128 = sorteio_largo(alto, baixo) % total;
    indice_na_roleta(roleta, alvo)
}

/// The number that two draws of a machine word spell.
pub open spec fn sorteio_largo_de(alto: usize, baixo: usize) -> int {
    alto * 0x1_0000_0000_0000_0000 + baixo
}

/// An individual drawn on the wheel: the first one when the wheel is empty
/// or without weight, else one whose entry is the first to exceed some
/// target below the total.
pub fn get_index_from_roleta(rng: &mut rand::XorShiftRng, roleta: &Vec<u128>) -> (k: usize)
    ensures
        k == 0 || k < roleta.len(),
        pode_sair(roleta@, k as int),
{
    let alto: usize = sorteia(rng);
    let baixo: usize = sorteia(rng);
    let k = escolhe_na_roleta(roleta, alto, baixo);
    proof {
        if roleta.len() > 0 && roleta[roleta.len() - 1] > 0 {
            let total = roleta[roleta.len() - 1];
            let alvo = (sorteio_largo_de(alto, baixo) % (total as int)) as u128;
            assert(alvo < total);
            assert(eh_escolhido(roleta@, alvo, k as int));
        }
    }
    k
}

/// `s` is the sequence of some individual of the population.
pub open spec fn veio_de(pop: Seq<Solucao>, s: Seq<usize>) -> bool {
    exists|i: int| 0 <= i < pop.len() && (#[trigger] pop[i])@.sequencia == s
}

/// `s` is the sequence of some individual of the population that can be
/// drawn on the wheel.
pub open spec fn saiu_da_roleta(pop: Seq<Solucao>, roleta: Seq<u128>, s: Seq<usize>) -> bool {
    exists|i: int|
        0 <= i < pop.len() && pode_sair(roleta, i) && (#[trigger] pop[i])@.sequencia == s
}

/// Two parents drawn on the wheel, independently: the same individual may
/// come out twice.
pub fn seleciona_pais<'a>(
    rng: &mut rand::XorShiftRng,
    pop: &'a Populacao,
    roleta: &Vec<u128>,
) -> (pais: (&'a Sequencia, &'a Sequencia))
    requires
        pop.len() > 0,
        roleta.len() == pop.len(),
    ensures
        saiu_da_roleta(pop@, roleta@, pais.0@),
        saiu_da_roleta(pop@, roleta@, pais.1@),
        veio_de(pop@, pais.0@),
        veio_de(pop@, pais.1@),
{
    let i: usize = get_index_from_roleta(rng, roleta);
    let pai1 = pop[i].sequencia();
    let j: usize = get_index_from_roleta(rng, roleta);
    let pai2 = pop[j].sequencia();
    assert(pop@[i as int]@.sequencia == pai1@);
    assert(pop@[j as int]@.sequencia == pai2@);
    (pai1, pai2)
}

/// `xo_num` pairs of parents, each drawn on the wheel of the population.
pub fn selecao<'a>(rng: &mut rand::XorShiftRng, pop: &'a Populacao, xo_num: usize) -> (pais: Vec<
    (&'a Sequencia, &'a Sequencia),
>)
    requires
        pop.len() > 0,
    ensures
        eh_selecao(pop@, xo_num as nat, pais@),
        pais.len() == xo_num,
        forall|k: int|
            0 <= k < pais.len() ==> veio_de(pop@, (#[trigger] pais[k]).0@) && veio_de(
                pop@,
                pais[k].1@,
            ),
{
    let roleta = gen_roleta(pop);
    let mut pais: Vec<(&'a Sequencia, &'a Sequencia)> = Vec::new();
    let mut k: usize = 0;
    while k < xo_num
        invariant
            0 <= k <= xo_num,
            pop.len() > 0,
            roleta.len() == pop.len(),
            pais.len() == k,
            forall|j: int|
                0 <= j < pais.len() ==> saiu_da_roleta(pop@, roleta@, (#[trigger] pais[j]).0@)
                    && saiu_da_roleta(pop@, roleta@, pais[j].1@),
            forall|j: int|
                0 <= j < pais.len() ==> veio_de(pop@, (#[trigger] pais[j]).0@) && veio_de(
                    pop@,
                    pais[j].1@,
                ),
        decreases xo_num - k,
    {
        let par = seleciona_pais(rng, pop, &roleta);
        pais.push(par);
        k = k + 1;
    }
    pais
}

/// `depois` holds the individuals of `antes` in ascending order of cost,
/// individuals of equal cost in the order they had.
pub open spec fn eh_ordenacao_estavel(antes: Seq<Solucao>, depois: Seq<Solucao>) -> bool {
    exists|ordem: Seq<usize>|
        {
            &&& #[trigger] eh_ordem_estavel(custos_de(antes), ordem)
            &&& depois.len() == antes.len()
            &&& forall|i: int| 0 <= i < depois.len() ==> depois[i] == antes[ordem[i] as int]
        }
}

/// The population is ranked: no individual costs more than a later one.
pub open spec fn ordenada(pop: Seq<Solucao>) -> bool {
    forall|i: int, j: int| 0 <= i <= j < pop.len() ==> pop[i]@.fo <= pop[j]@.fo
}

/// Every individual is a schedule of the tasks with its true cost.
pub open spec fn todas_resolvem(pop: Seq<Solucao>, ts: Seq<DadosTarefa>) -> bool {
    forall|i: int| 0 <= i < pop.len() ==> (#[trigger] pop[i])@.resolve(ts)
}

/// A stable sort ranks the population and keeps what holds of every
/// individual.
pub proof fn lemma_ordenacao_estavel(antes: Seq<Solucao>, depois: Seq<Solucao>)
    requires
        eh_ordenacao_estavel(antes, depois),
    ensures
        ordenada(depois),
        depois.len() == antes.len(),
        forall|ts: Seq<DadosTarefa>| todas_resolvem(antes, ts) ==> todas_resolvem(depois, ts),
{
    let ordem = choose|ordem: Seq<usize>|
        {
            &&& #[trigger] eh_ordem_estavel(custos_de(antes), ordem)
            &&& depois.len() == antes.len()
            &&& forall|i: int| 0 <= i < depois.len() ==> depois[i] == antes[ordem[i] as int]
        };
    assert forall|i: int, j: int| 0 <= i <= j < depois.len() implies depois[i]@.fo
        <= depois[j]@.fo by {
        if i < j {
            assert(crate::ordenacao::precede(custos_de(antes), ordem[i] as int, ordem[j] as int));
        }
    }
    assert forall|ts: Seq<DadosTarefa>| todas_resolvem(antes, ts) implies todas_resolvem(
        depois,
        ts,
    ) by {
        assert forall|i: int| 0 <= i < depois.len() implies (#[trigger] depois[i])@.resolve(ts) by {
            assert(antes[ordem[i] as int]@.resolve(ts));
        }
    }
}

/// The individuals of `pop`, the one at position `ordem[i]` in place `i`.
fn reordena(pop: Populacao, ordem: &Vec<usize>) -> (nova: Populacao)
    requires
        eh_permutacao(ordem@, pop.len() as nat),
    ensures
        nova.len() == pop.len(),
        forall|i: int| 0 <= i < nova.len() ==> nova[i] == pop[ordem[i] as int],
{
    let mut pop = pop;
    let ghost antes = pop@;
    let n: usize = pop.len();
    let mut nova: Populacao = Vec::new();
    let mut i: usize = 0;
    while i < n
        invariant
            0 <= i <= n,
            n == pop.len(),
            n == antes.len(),
            eh_permutacao(ordem@, n as nat),
            nova.len() == i,
            forall|k: int| 0 <= k < i ==> nova[k] == antes[ordem[k] as int],
            forall|k: int| i <= k < n ==> pop[ordem[k] as int] == antes[ordem[k] as int],
        decreases n - i,
    {
        let j: usize = ordem[i];
        let mut s: Solucao = Solucao::vazia();
        core::mem::swap(&mut s, &mut pop[j]);
        nova.push(s);
        i = i + 1;
    }
    nova
}

/// The population in ascending order of cost, individuals of equal cost in
/// the order they had.
pub fn ordena_populacao(pop: Populacao) -> (nova: Populacao)
    ensures
        eh_ordenacao_estavel(pop@, nova@),
        ordenada(nova@),
        nova.len() == pop.len(),
{
    let n: usize = pop.len();
    let mut chaves: Vec<i64> = Vec::new();
    let mut i: usize = 0;
    while i < n
        invariant
            0 <= i <= n,
            n == pop.len(),
            chaves.len() == i,
            forall|k: int| 0 <= k < i ==> chaves[k] == pop[k]@.fo,
        decreases n - i,
    {
        chaves.push(pop[i].fo() as i64);
        i = i + 1;
    }
    assert(crate::ordenacao::inteiros(chaves@) =~= custos_de(pop@));
    let ordem = ordem_estavel(&chaves);
    let nova = reordena(pop, &ordem);
    proof {
        assert(eh_ordem_estavel(custos_de(pop@), ordem@));
        assert forall|i: int, j: int| 0 <= i <= j < nova.len() implies nova[i]@.fo
            <= nova[j]@.fo by {
            if i < j {
                assert(crate::ordenacao::precede(
                    custos_de(pop@),
                    ordem[i] as int,
                    ordem[j] as int,
                ));
            }
        }
    }
    nova
}

/// `filho` can be the `i`-th offspring of the parents: the `i`-th child of
/// the crossover, as it is or mutated, as the rate `taxa` allows.
pub open spec fn eh_descendente(
    cruz: Cruzamento,
    metodo_mut: Mutacao,
    taxa: crate::fracao::Razao,
    pais: Seq<(&Sequencia, &Sequencia)>,
    i: int,
    filho: Seq<usize>,
) -> bool {
    exists|cru: Seq<usize>| #[trigger]
        eh_filho_de_ordem(cruz, pais, i, cru) && eh_mutado(metodo_mut, taxa, cru, filho)
}

/// `filhos` is an offspring of the parents: two evaluated children for each
/// pair, each a descendant of its pair.
pub open spec fn eh_prole(
    ts: Seq<DadosTarefa>,
    cruz: Cruzamento,
    metodo_mut: Mutacao,
    taxa: crate::fracao::Razao,
    pais: Seq<(&Sequencia, &Sequencia)>,
    filhos: Seq<Solucao>,
) -> bool {
    &&& filhos.len() == 2 * pais.len()
    &&& todas_resolvem(filhos, ts)
    &&& forall|i: int|
        0 <= i < filhos.len() ==> eh_descendente(
            cruz,
            metodo_mut,
            taxa,
            pais,
            i,
            (#[trigger] filhos[i])@.sequencia,
        )
}

/// `pais` are `xo_num` pairs of parents drawn on the wheel of the
/// population.
pub open spec fn eh_selecao(pop: Seq<Solucao>, xo_num: nat, pais: Seq<(&Sequencia, &Sequencia)>) -> bool {
    &&& pais.len() == xo_num
    &&& exists|roleta: Seq<u128>|
        {
            &&& #[trigger] eh_roleta(custos_de(pop), roleta)
            &&& forall|k: int|
                0 <= k < pais.len() ==> saiu_da_roleta(pop, roleta, (#[trigger] pais[k]).0@)
                    && saiu_da_roleta(pop, roleta, pais[k].1@)
        }
}

/// `proxima` is what one generation makes of the population: parents are
/// drawn on its wheel, their offspring takes the places of the worst
/// individuals, and the population is ranked again.
pub open spec fn eh_geracao(
    ts: Seq<DadosTarefa>,
    cruz: Cruzamento,
    metodo_mut: Mutacao,
    taxa: crate::fracao::Razao,
    xo_num: nat,
    pop: Seq<Solucao>,
    pais: Seq<(&Sequencia, &Sequencia)>,
    filhos: Seq<Solucao>,
    proxima: Seq<Solucao>,
) -> bool {
    &&& eh_selecao(pop, xo_num, pais)
    &&& eh_prole(ts, cruz, metodo_mut, taxa, pais, filhos)
    &&& eh_ordenacao_estavel(substitui_piores(pop, filhos, pop.len() as int), proxima)
}

/// `proxima` is what one generation makes of the population for some
/// parents and some offspring of theirs: see [`eh_geracao`].
pub open spec fn pode_ser_geracao(
    ts: Seq<DadosTarefa>,
    cruz: Cruzamento,
    metodo_mut: Mutacao,
    taxa: crate::fracao::Razao,
    xo_num: nat,
    pop: Seq<Solucao>,
    proxima: Seq<Solucao>,
) -> bool {
    exists|pais: Seq<(&Sequencia, &Sequencia)>, filhos: Seq<Solucao>| #[trigger]
        eh_geracao(ts, cruz, metodo_mut, taxa, xo_num, pop, pais, filhos, proxima)
}

/// The offspring of one generation: two children per pair of parents, each
/// mutated with probability `mut_chance` and then evaluated.
pub fn recombinacao(
    rng: &mut rand::XorShiftRng,
    inst: &Instancia,
    pais: Vec<(&Sequencia, &Sequencia)>,
    mut_chance: &Fracao,
    cruz: Cruzamento,
    metodo_mut: Mutacao,
) -> (filhos: Populacao)
    requires
        forall|k: int|
            0 <= k < pais.len() ==> eh_permutacao((#[trigger] pais[k]).0@, inst@.len())
                && eh_permutacao(pais[k].1@, inst@.len()),
    ensures
        eh_prole(inst@, cruz, metodo_mut, mut_chance@, pais@, filhos@),
        filhos.len() == 2 * pais.len(),
        todas_resolvem(filhos@, inst@),
{
    let ghost n = inst@.len();
    let ghost os_pais = pais@;
    proof {
        use_type_invariant(inst);
        assert forall|k: int| 0 <= k < pais.len() implies eh_permutacao(
            (#[trigger] pais[k]).0@,
            pais[k].0@.len(),
        ) && eh_permutacao(pais[k].1@, pais[k].0@.len()) by {
            assert(eh_permutacao(pais[k].0@, n));
        }
    }
    let mut crus: Vec<Sequencia> = cruzamento(rng, cruz, pais);
    let total: usize = crus.len();
    let ghost todos = crus@;
    proof {
        assert forall|i: int| 0 <= i < todos.len() implies eh_permutacao(
            #[trigger] todos[i]@,
            n,
        ) by {
            assert(eh_permutacao(os_pais[i / 2].0@, n));
        }
    }
    let mut filhos: Populacao = Vec::new();
    let mut i: usize = 0;
    while i < total
        invariant
            0 <= i <= total,
            total == todos.len(),
            crus.len() == total,
            n == inst@.len(),
            instancia_valida(inst@),
            forall|k: int| i <= k < total ==> crus[k] == todos[k],
            forall|k: int| 0 <= k < todos.len() ==> eh_permutacao(#[trigger] todos[k]@, n),
            forall|k: int|
                0 <= k < todos.len() ==> eh_filho_de_ordem(cruz, os_pais, k, #[trigger] todos[k]@),
            filhos.len() == i,
            forall|k: int|
                0 <= k < filhos.len() ==> {
                    &&& (#[trigger] filhos[k])@.resolve(inst@)
                    &&& eh_descendente(
                        cruz,
                        metodo_mut,
                        mut_chance@,
                        os_pais,
                        k,
                        filhos[k]@.sequencia,
                    )
                },
        decreases total - i,
    {
        let mut seq: Sequencia = Vec::new();
        core::mem::swap(&mut seq, &mut crus[i]);
        assert(seq == todos[i as int]);
        let ghost cru = seq@;
        let seq = mutacao(rng, seq, mut_chance, metodo_mut);
        proof {
            lemma_rearranjo_de_permutacao(cru, seq@, n);
            lemma_custo_finito(inst@, seq@);
            assert(eh_filho_de_ordem(cruz, os_pais, i as int, cru));
        }
        let s = Solucao::new(inst, seq);
        filhos.push(s);
        i = i + 1;
    }
    filhos
}

/// The population in which the children have taken the places of the
/// worst individuals: the places `pop_tam - filhos.len()` to `pop_tam - 1`,
/// the last child first.
pub open spec fn substitui_piores(atual: Seq<Solucao>, filhos: Seq<Solucao>, pop_tam: int) -> Seq<
    Solucao,
> {
    let begin = pop_tam - filhos.len();
    Seq::new(
        atual.len(),
        |i: int|
            if begin <= i < pop_tam {
                filhos[pop_tam - 1 - i]
            } else {
                atual[i]
            },
    )
}

/// The next generation: the children take the places of the worst
/// individuals, and the population is ranked again.
pub fn proxima_geracao(atual: Populacao, filhos: Populacao, pop_tam: usize) -> (proxima: Populacao)
    requires
        filhos.len() <= pop_tam <= atual.len(),
    ensures
        eh_ordenacao_estavel(substitui_piores(atual@, filhos@, pop_tam as int), proxima@),
        ordenada(proxima@),
        proxima.len() == atual.len(),
{
    let mut proxima = atual;
    let mut filhos = filhos;
    let ghost antes = proxima@;
    let ghost todos = filhos@;
    let begin: usize = pop_tam - filhos.len();
    let mut i: usize = begin;
    while i < pop_tam
        invariant
            begin <= i <= pop_tam <= proxima.len(),
            begin == pop_tam - todos.len(),
            proxima.len() == antes.len(),
            filhos.len() == pop_tam - i,
            filhos@ == todos.subrange(0, pop_tam - i),
            forall|k: int|
                0 <= k < proxima.len() ==> #[trigger] proxima[k] == (if begin <= k < i {
                    todos[pop_tam - 1 - k]
                } else {
                    antes[k]
                }),
        decreases pop_tam - i,
    {
        let f: Solucao = filhos.pop().unwrap();
        proxima[i] = f;
        i = i + 1;
    }
    assert(proxima@ =~= substitui_piores(antes, todos, pop_tam as int));
    ordena_populacao(proxima)
}

/// A permutation of the tasks drawn from `rng`.
pub fn sequencia_aleatoria(rng: &mut rand::XorShiftRng, inst: &Instancia) -> (seq: Sequencia)
    ensures
        eh_permutacao(seq@, inst@.len()),
{
    let num_tarefas: usize = inst.num_tarefas();
    let mut seq: Sequencia = Vec::new();
    let mut i: usize = 0;
    while i < num_tarefas
        invariant
            0 <= i <= num_tarefas,
            seq@ == identidade(i as nat),
        decreases num_tarefas - i,
    {
        seq.push(i);
        assert(seq@ =~= identidade((i + 1) as nat));
        i = i + 1;
    }
    proof {
        lemma_identidade_permutacao(num_tarefas as nat);
    }
    let ghost antes = seq@;
    embaralha(rng, &mut seq);
    proof {
        lemma_rearranjo_de_permutacao(antes, seq@, num_tarefas as nat);
    }
    seq
}

/// A random schedule of the tasks, evaluated.
pub fn individuo_aleatorio(rng: &mut rand::XorShiftRng, inst: &Instancia) -> (s: Solucao)
    ensures
        s@.resolve(inst@),
{
    let seq = sequencia_aleatoria(rng, inst);
    proof {
        use_type_invariant(inst);
        lemma_custo_finito(inst@, seq@);
    }
    Solucao::new(inst, seq)
}

/// A ranked population of `pop_tam` random schedules.
pub fn populacao_inicial(rng: &mut rand::XorShiftRng, inst: &Instancia, pop_tam: usize) -> (pop:
    Populacao)
    ensures
        pop.len() == pop_tam,
        todas_resolvem(pop@, inst@),
        ordenada(pop@),
{
    let mut pop: Populacao = Vec::new();
    let mut i: usize = 0;
    while i < pop_tam
        invariant
            0 <= i <= pop_tam,
            pop.len() == i,
            todas_resolvem(pop@, inst@),
        decreases pop_tam - i,
    {
        let s = individuo_aleatorio(rng, inst);
        pop.push(s);
        i = i + 1;
    }
    let ghost antes = pop@;
    let pop = ordena_populacao(pop);
    proof {
        lemma_ordenacao_estavel(antes, pop@);
    }
    pop
}

/// The number of pairs of parents per generation: half of the share
/// `xo_chance` of the population, rounded down.
pub fn numero_de_cruzamentos(pop_tam: usize, xo_chance: &Fracao) -> (xo_num: usize)
    ensures
        xo_num == xo_chance@.piso_de(pop_tam as nat) / 2,
        2 * xo_num <= pop_tam,
{
    xo_chance.piso_de(pop_tam) / 2
}

/// What holds of the population between generations: it has `pop_tam`
/// individuals, each a schedule of the tasks `ts` with its true cost, and it
/// is ranked.
pub open spec fn populacao_valida(pop: Seq<Solucao>, ts: Seq<DadosTarefa>, pop_tam: nat) -> bool {
    &&& pop.len() == pop_tam
    &&& todas_resolvem(pop, ts)
    &&& ordenada(pop)
}

/// One generation: parents are drawn on the wheel of the population,
/// `xo_num` pairs of them; each pair gives two children, which are mutated
/// at the rate `mut_chance`; the children take the places of the worst
/// individuals; and the population is ranked again. It has the size it had.
pub fn geracao(
    rng: &mut rand::XorShiftRng,
    inst: &Instancia,
    pop: Populacao,
    xo_num: usize,
    cruz: Cruzamento,
    mutacao: Mutacao,
    mut_chance: &Fracao,
) -> (proxima: Populacao)
    requires
        pop.len() > 0,
        2 * xo_num <= pop.len(),
        populacao_valida(pop@, inst@, pop.len() as nat),
    ensures
        populacao_valida(proxima@, inst@, pop.len() as nat),
        pode_ser_geracao(inst@, cruz, mutacao, mut_chance@, xo_num as nat, pop@, proxima@),
{
    let pop_tam: usize = pop.len();
    let ghost antes = pop@;
    let ghost os_pais: Seq<(&Sequencia, &Sequencia)>;
    let filhos = {
        let pais = selecao(rng, &pop, xo_num);
        proof {
            os_pais = pais@;
            assert forall|k: int| 0 <= k < pais.len() implies eh_permutacao(
                (#[trigger] pais[k]).0@,
                inst@.len(),
            ) && eh_permutacao(pais[k].1@, inst@.len()) by {
                lemma_veio_de_populacao(pop@, inst@, pais[k].0@);
                lemma_veio_de_populacao(pop@, inst@, pais[k].1@);
            }
        }
        recombinacao(rng, inst, pais, mut_chance, cruz, mutacao)
    };
    let ghost os_filhos = filhos@;
    let ghost misturada = substitui_piores(antes, os_filhos, pop_tam as int);
    let proxima = proxima_geracao(pop, filhos, pop_tam);
    proof {
        assert(todas_resolvem(misturada, inst@));
        lemma_ordenacao_estavel(misturada, proxima@);
        assert(eh_geracao(
            inst@,
            cruz,
            mutacao,
            mut_chance@,
            xo_num as nat,
            antes,
            os_pais,
            os_filhos,
            proxima@,
        ));
    }
    proxima
}

/// What holds of the outcome of a run on `ts` that is allowed `prazo`
/// nanoseconds and stops after `max_iter` iterations without improvement.
/// The solution is a schedule of the tasks with its true cost. It was found
/// in one of the iterations done, and no more than `max_iter` iterations
/// followed the one that found it. It was found after the first iteration
/// only if it improved on a schedule, so that some schedule costs more. With
/// no time allowed no iteration is done.
pub open spec fn eh_resultado(
    ts: Seq<DadosTarefa>,
    prazo: nat,
    max_iter: u64,
    r: (Solucao, u64, u64),
) -> bool {
    &&& r.0@.resolve(ts)
    &&& r.1 <= r.2
    &&& r.2 > 0 ==> r.1 < r.2
    &&& r.2 - r.1 <= max_iter
    &&& r.1 > 0 ==> ha_mais_caro(ts, r.0@.fo)
    &&& prazo == 0 ==> r.2 == 0
}

/// `historia` is the run that `r` came of: the population before the first
/// generation and after each generation done. Each is a ranked population of
/// schedules with their true costs, and each but the first is what a
/// generation made of the one before. The result costs no more than the best
/// of any of them. It is the best of the first population, where none later
/// was strictly cheaper; else it is the best of the population after the
/// generation that found it, and strictly cheaper than every best before.
pub open spec fn eh_corrida(
    ts: Seq<DadosTarefa>,
    cruz: Cruzamento,
    mutacao: Mutacao,
    taxa: crate::fracao::Razao,
    xo_num: nat,
    pop_tam: nat,
    historia: Seq<Seq<Solucao>>,
    r: (Solucao, u64, u64),
) -> bool {
    &&& historia.len() == r.2 + 1
    &&& forall|k: int|
        0 <= k < historia.len() ==> populacao_valida(#[trigger] historia[k], ts, pop_tam)
    &&& forall|k: int|
        0 <= k < r.2 ==> pode_ser_geracao(
            ts,
            cruz,
            mutacao,
            taxa,
            xo_num,
            #[trigger] historia[k],
            historia[k + 1],
        )
    &&& forall|k: int| 0 <= k < historia.len() ==> r.0@.fo <= (#[trigger] historia[k])[0]@.fo
    &&& if r.0@.fo == historia[0][0]@.fo {
        r.1 == 0 && r.0@ == historia[0][0]@
    } else {
        &&& r.1 < r.2
        &&& r.0@ == historia[r.1 + 1][0]@
        &&& forall|k: int| 0 <= k <= r.1 ==> (#[trigger] historia[k])[0]@.fo > r.0@.fo
    }
}

/// `r` came of some run of the genetic algorithm: see [`eh_corrida`].
pub open spec fn pode_ser_corrida(
    ts: Seq<DadosTarefa>,
    cruz: Cruzamento,
    mutacao: Mutacao,
    taxa: crate::fracao::Razao,
    xo_num: nat,
    pop_tam: nat,
    r: (Solucao, u64, u64),
) -> bool {
    exists|historia: Seq<Seq<Solucao>>| #[trigger]
        eh_corrida(ts, cruz, mutacao, taxa, xo_num, pop_tam, historia, r)
}

/// Runs the genetic algorithm with the generator `rng`.
///
/// Starting from a random population of `pop_tam` schedules, each generation
/// draws parents on the roulette wheel, recombines them with `cruz`, mutates
/// the children with `mutacao` at the rate `mut_chance`, and lets them take
/// the places of the worst individuals. The run stops when the best cost has
/// not improved for `max_iter` generations or `timeout` has gone by.
///
/// Returns the best schedule found, the generation that found it, and the
/// number of generations done.
pub fn solve_com(
    rng: &mut rand::XorShiftRng,
    inst: &Instancia,
    timeout: Duration,
    max_iter: u64,
    pop_tam: usize,
    xo_chance: &Fracao,
    cruz: Cruzamento,
    mutacao: Mutacao,
    mut_chance: &Fracao,
) -> (r: (Solucao, u64, u64))
    requires
        pop_tam > 0,
    ensures
        eh_resultado(inst@, nanos_de(timeout), max_iter, r),
        pode_ser_corrida(
            inst@,
            cruz,
            mutacao,
            mut_chance@,
            xo_chance@.piso_de(pop_tam as nat) / 2,
            pop_tam as nat,
            r,
        ),
{
    let mut pop = populacao_inicial(rng, inst, pop_tam);
    let inicial = pop[0].clone();
    let mut prog = Progresso::novo(inicial);
    let xo_num: usize = numero_de_cruzamentos(pop_tam, xo_chance);
    let t = Instant::now();
    let ghost mut historia: Seq<Seq<Solucao>> = seq![pop@];
    proof {
        use_type_invariant(inst);
        lemma_custo_finito(inst@, prog@.melhor.sequencia);
    }
    while prog.ativo(max_iter) && dentro_do_prazo(&t, &timeout)
        invariant
            pop_tam > 0,
            2 * xo_num <= pop_tam,
            xo_num == xo_chance@.piso_de(pop_tam as nat) / 2,
            instancia_valida(inst@),
            populacao_valida(pop@, inst@, pop_tam as nat),
            prog@.melhor.resolve(inst@),
            0 <= prog@.melhor.fo,
            prog@.it_melhor <= prog@.it,
            prog@.it > 0 ==> prog@.it_melhor < prog@.it,
            prog@.it - prog@.it_melhor <= max_iter,
            prog@.it_melhor > 0 ==> ha_mais_caro(inst@, prog@.melhor.fo),
            prog@.it > 0 ==> nanos_de(timeout) > 0,
            historia.len() == prog@.it + 1,
            historia[historia.len() - 1] == pop@,
            forall|k: int|
                0 <= k < historia.len() ==> populacao_valida(
                    #[trigger] historia[k],
                    inst@,
                    pop_tam as nat,
                ),
            forall|k: int|
                0 <= k < prog@.it ==> pode_ser_geracao(
                    inst@,
                    cruz,
                    mutacao,
                    mut_chance@,
                    xo_num as nat,
                    #[trigger] historia[k],
                    historia[k + 1],
                ),
            forall|k: int|
                0 <= k < historia.len() ==> prog@.melhor.fo <= (#[trigger] historia[k])[0]@.fo,
            if prog@.melhor.fo == historia[0][0]@.fo {
                prog@.it_melhor == 0 && prog@.melhor == historia[0][0]@
            } else {
                &&& prog@.it_melhor < prog@.it
                &&& prog@.melhor == historia[prog@.it_melhor as int + 1][0]@
                &&& forall|k: int|
                    0 <= k <= prog@.it_melhor ==> (#[trigger] historia[k])[0]@.fo > prog@.melhor.fo
            },
        decreases prog@.melhor.fo, max_iter - (prog@.it - prog@.it_melhor),
    {
        let ghost anterior = pop@;
        let ghost passada = historia;
        pop = geracao(rng, inst, pop, xo_num, cruz, mutacao, mut_chance);
        let ghost antes = prog@;
        proof {
            lemma_custo_finito(inst@, pop[0]@.sequencia);
            historia = passada.push(pop@);
            assert forall|k: int| 0 <= k < antes.it + 1 implies pode_ser_geracao(
                inst@,
                cruz,
                mutacao,
                mut_chance@,
                xo_num as nat,
                #[trigger] historia[k],
                historia[k + 1],
            ) by {
                if k < antes.it {
                    assert(historia[k] == passada[k] && historia[k + 1] == passada[k + 1]);
                } else {
                    assert(historia[k] == anterior);
                }
            }
            assert forall|k: int| 0 <= k < historia.len() implies populacao_valida(
                #[trigger] historia[k],
                inst@,
                pop_tam as nat,
            ) by {
                if k < passada.len() {
                    assert(historia[k] == passada[k]);
                }
            }
        }
        prog.registra(&pop[0]);
        proof {
            if prog@.it_melhor > 0 && prog@.melhor != antes.melhor {
                assert(custo(inst@, antes.melhor.sequencia) > prog@.melhor.fo);
            }
            assert forall|k: int| 0 <= k < historia.len() implies prog@.melhor.fo <= (
            #[trigger] historia[k])[0]@.fo by {
                if k < passada.len() {
                    assert(historia[k] == passada[k]);
                }
            }
            assert(historia[0] == passada[0]);
            if prog@.melhor.fo != historia[0][0]@.fo {
                if prog@.melhor == antes.melhor {
                    assert(historia[antes.it_melhor as int + 1] == passada[antes.it_melhor as int + 1]);
                }
                assert forall|k: int| 0 <= k <= prog@.it_melhor implies (
                #[trigger] historia[k])[0]@.fo > prog@.melhor.fo by {
                    assert(historia[k] == passada[k]);
                }
            }
        }
    }
    let r = prog.resultado();
    proof {
        assert(eh_corrida(
            inst@,
            cruz,
            mutacao,
            mut_chance@,
            xo_num as nat,
            pop_tam as nat,
            historia,
            r,
        ));
    }
    r
}

/// The parents come from the population, so they are schedules of its
/// tasks.
pub proof fn lemma_veio_de_populacao(pop: Seq<Solucao>, ts: Seq<DadosTarefa>, s: Seq<usize>)
    requires
        todas_resolvem(pop, ts),
        veio_de(pop, s),
    ensures
        eh_permutacao(s, ts.len()),
{
    let i = choose|i: int| 0 <= i < pop.len() && (#[trigger] pop[i])@.sequencia == s;
    assert(pop[i]@.resolve(ts));
}

/// Runs the genetic algorithm with a generator of its own, freshly seeded.
///
/// See [`solve_com`] for what the run does and returns.
pub fn solve(
    inst: &Instancia,
    timeout: Duration,
    max_iter: u64,
    pop_tam: usize,
    xo_chance: Fracao,
    cruz: Cruzamento,
    mutacao: Mutacao,
    mut_chance: Fracao,
) -> (r: (Solucao, u64, u64))
    requires
        pop_tam > 0,
    ensures
        eh_resultado(inst@, nanos_de(timeout), max_iter, r),
        pode_ser_corrida(
            inst@,
            cruz,
            mutacao,
            mut_chance@,
            xo_chance@.piso_de(pop_tam as nat) / 2,
            pop_tam as nat,
            r,
        ),
{
    let mut rng = novo_gerador();
    solve_com(&mut rng, inst, timeout, max_iter, pop_tam, &xo_chance, cruz, mutacao, &mut_chance)
}

/// A genetic algorithm set up for one instance: the instance and the
/// parameters of the run, each with a default that a setter overrides.
pub struct Ag<'a> {
    inst: &'a Instancia,
    timeout: u64,
    max_iter: u64,
    pop_tam: usize,
    xo_chance: Fracao,
    mut_chance: Fracao,
    cruz: Cruzamento,
    mutacao: Mutacao,
}

/// The mathematical content of an [`Ag`].
pub struct ConfigAg {
    /// The tasks of the instance.
    pub tarefas: Seq<DadosTarefa>,
    /// Time limit, in seconds.
    pub timeout: u64,
    /// Generations without improvement after which the run stops.
    pub max_iter: u64,
    /// Size of the population.
    pub pop_tam: usize,
    /// Share of the population that is recombined per generation.
    pub xo_chance: crate::fracao::Razao,
    /// Probability that a child is mutated.
    pub mut_chance: crate::fracao::Razao,
    /// Crossover operator.
    pub cruz: Cruzamento,
    /// Mutation operator.
    pub mutacao: Mutacao,
}

impl<'a> View for Ag<'a> {
    type V = ConfigAg;

    closed spec fn view(&self) -> ConfigAg {
        ConfigAg {
            tarefas: self.inst@,
            timeout: self.timeout,
            max_iter: self.max_iter,
            pop_tam: self.pop_tam,
            xo_chance: self.xo_chance@,
            mut_chance: self.mut_chance@,
            cruz: self.cruz,
            mutacao: self.mutacao,
        }
    }
}

impl<'a> Ag<'a> {
    /// The algorithm for `inst` with the default parameters: no time limit
    /// to speak of, 1000 generations of patience, 200 individuals, four
    /// fifths of them recombined by partially-mapped crossover, one child in
    /// ten mutated by a swap.
    pub fn new(inst: &'a Instancia) -> (ag: Ag<'a>)
        ensures
            ag@ == (ConfigAg {
                tarefas: inst@,
                timeout: u64::MAX,
                max_iter: 1000,
                pop_tam: 200,
                xo_chance: crate::fracao::Razao { num: 4, den: 5 },
                mut_chance: crate::fracao::Razao { num: 1, den: 10 },
                cruz: Cruzamento::PMX,
                mutacao: Mutacao::Swap,
            }),
    {
        Ag {
            inst: inst,
            timeout: u64::MAX,
            max_iter: 1000,
            pop_tam: 200,
            xo_chance: Fracao::new(4, 5).unwrap(),
            mut_chance: Fracao::new(1, 10).unwrap(),
            cruz: Cruzamento::PMX,
            mutacao: Mutacao::Swap,
        }
    }

    /// Runs the algorithm as set up. See [`solve_com`].
    pub fn solve(&self) -> (r: (Solucao, u64, u64))
        requires
            self@.pop_tam > 0,
        ensures
            eh_resultado(self@.tarefas, (self@.timeout * 1_000_000_000) as nat, self@.max_iter, r),
            pode_ser_corrida(
                self@.tarefas,
                self@.cruz,
                self@.mutacao,
                self@.mut_chance,
                self@.xo_chance.piso_de(self@.pop_tam as nat) / 2,
                self@.pop_tam as nat,
                r,
            ),
    {
        solve(
            self.inst,
            Duration::from_secs(self.timeout),
            self.max_iter,
            self.pop_tam,
            self.xo_chance,
            self.cruz,
            self.mutacao,
            self.mut_chance,
        )
    }

    /// Sets the time limit, in seconds.
    pub fn timeout(&mut self, timeout: u64) -> (ag: &mut Ag<'a>)
        ensures
            ag@ == (ConfigAg { timeout: timeout, ..old(self)@ }),
            *final(self) == *final(ag),
    {
        self.timeout = timeout;
        self
    }

    /// Sets the number of generations without improvement after which the
    /// run stops.
    pub fn max_iter(&mut self, max_iter: u64) -> (ag: &mut Ag<'a>)
        ensures
            ag@ == (ConfigAg { max_iter: max_iter, ..old(self)@ }),
            *final(self) == *final(ag),
    {
        self.max_iter = max_iter;
        self
    }

    /// Sets the size of the population.
    pub fn pop_tam(&mut self, pop_tam: usize) -> (ag: &mut Ag<'a>)
        ensures
            ag@ == (ConfigAg { pop_tam: pop_tam, ..old(self)@ }),
            *final(self) == *final(ag),
    {
        self.pop_tam = pop_tam;
        self
    }

    /// Sets the share of the population that is recombined per generation.
    pub fn xo_chance(&mut self, xo_chance: Fracao) -> (ag: &mut Ag<'a>)
        ensures
            ag@ == (ConfigAg { xo_chance: xo_chance@, ..old(self)@ }),
            *final(self) == *final(ag),
    {
        self.xo_chance = xo_chance;
        self
    }

    /// Sets the probability that a child is mutated.
    pub fn mut_chance(&mut self, mut_chance: Fracao) -> (ag: &mut Ag<'a>)
        ensures
            ag@ == (ConfigAg { mut_chance: mut_chance@, ..old(self)@ }),
            *final(self) == *final(ag),
    {
        self.mut_chance = mut_chance;
        self
    }

    /// Sets the crossover operator.
    pub fn cruz(&mut self, cruz: Cruzamento) -> (ag: &mut Ag<'a>)
        ensures
            ag@ == (ConfigAg { cruz: cruz, ..old(self)@ }),
            *final(self) == *final(ag),
    {
        self.cruz = cruz;
        self
    }

    /// Sets the mutation operator.
    pub fn mutacao(&mut self, mutacao: Mutacao) -> (ag: &mut Ag<'a>)
        ensures
            ag@ == (ConfigAg { mutacao: mutacao, ..old(self)@ }),
            *final(self) == *final(ag),
    {
        self.mutacao = mutacao;
        self
    }
}

} // verus!
