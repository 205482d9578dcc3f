//! GRASP: a semi-greedy construction followed by a descent through a fixed
//! list of neighbourhoods, repeated while it pays.

use vstd::prelude::*;
use std::time::{Duration, Instant};
use crate::custo::{
    avalia, custo, ha_mais_caro, instancia_valida, lemma_avalia_limites, lemma_custo_finito,
    DadosTarefa, INF,
};
use crate::fracao::Fracao;
use crate::instancia::{
    chaves_neh, eh_melhor_posicao, insere_melhor, lemma_partes_de_permutacao, lemma_passa_tarefa,
    melhor_insercao, ordem_neh, DadosSolucao, IdTarefa, Instancia, Sequencia, Solucao,
};
use crate::parada::Progresso;
use crate::ordenacao::{eh_ordem_estavel, inteiros, ordem_estavel, precede};
use crate::permutacao::{
    desloca, desloca_em, eh_permutacao, eh_rearranjo, inverte, inverte_em, lemma_falta_um,
    lemma_desloca_rearranjo, lemma_rearranjo_de_permutacao, lemma_rearranjo_transitivo,
    lemma_troca_rearranjo, troca, troca_em,
};
use crate::relogio::{dentro_do_prazo, nanos_de};
use crate::sorteio::{novo_gerador, sorteia};

verus! {

/// The neighbourhoods of the descent, in the order in which it tries them.
#[derive(Clone, Copy, Debug)]
pub enum Vizinhanca {
    /// Take one task out and put it back elsewhere.
    Insercao,
    /// Exchange two tasks.
    Swap,
    /// Exchange two pairs of adjacent tasks.
    SwapAdj,
    /// Rotate three tasks.
    SwapXyz,
}

/// The positions that a move of the neighbourhood can be made on, in a
/// sequence of length `n`.
///
/// An insertion and a swap take any two positions; an adjacent swap any two
/// positions that have a successor; a three-point swap any three positions
/// `a < b < c`. The third position is used by the three-point swap alone.
pub open spec fn posicoes_validas(op: Vizinhanca, n: nat, a: int, b: int, c: int) -> bool {
    match op {
        Vizinhanca::Insercao => 0 <= a < n && 0 <= b < n,
        Vizinhanca::Swap => 0 <= a < n && 0 <= b < n,
        Vizinhanca::SwapAdj => 0 <= a < n - 1 && 0 <= b < n - 1,
        Vizinhanca::SwapXyz => 0 <= a < b < c < n,
    }
}

/// The neighbour of `s` that the move on the given positions leads to.
pub open spec fn vizinho_em(op: Vizinhanca, s: Seq<usize>, a: int, b: int, c: int) -> Seq<usize> {
    match op {
        Vizinhanca::Insercao => desloca(s, a, b),
        Vizinhanca::Swap => troca(s, a, b),
        Vizinhanca::SwapAdj => troca(troca(s, a, b), a + 1, b + 1),
        Vizinhanca::SwapXyz => troca(troca(s, a, c), b, c),
    }
}

/// The shortest sequence that the neighbourhood has a move on.
pub open spec fn tamanho_minimo(op: Vizinhanca) -> nat {
    match op {
        Vizinhanca::Insercao => 1,
        Vizinhanca::Swap => 1,
        Vizinhanca::SwapAdj => 2,
        Vizinhanca::SwapXyz => 3,
    }
}

/// `r` is a neighbour of `s`: the result of some move of the neighbourhood,
/// or, where `s` is too short for any move, `s` itself.
pub open spec fn eh_vizinho(op: Vizinhanca, s: Seq<usize>, r: Seq<usize>) -> bool {
    if s.len() < tamanho_minimo(op) {
        r == s
    } else {
        exists|a: int, b: int, c: int| #[trigger]
            posicoes_validas(op, s.len(), a, b, c) && r == vizinho_em(op, s, a, b, c)
    }
}

/// Every move rearranges the sequence.
pub proof fn lemma_vizinho_rearranjo(op: Vizinhanca, s: Seq<usize>, a: int, b: int, c: int)
    requires
        posicoes_validas(op, s.len(), a, b, c),
    ensures
        eh_rearranjo(s, vizinho_em(op, s, a, b, c)),
        vizinho_em(op, s, a, b, c).len() == s.len(),
{
    match op {
        Vizinhanca::Insercao => lemma_desloca_rearranjo(s, a, b),
        Vizinhanca::Swap => lemma_troca_rearranjo(s, a, b),
        Vizinhanca::SwapAdj => {
            lemma_troca_rearranjo(s, a, b);
            lemma_troca_rearranjo(troca(s, a, b), a + 1, b + 1);
        },
        Vizinhanca::SwapXyz => {
            lemma_troca_rearranjo(s, a, c);
            lemma_troca_rearranjo(troca(s, a, c), b, c);
        },
    }
}

/// Every neighbour of a sequence is a rearrangement of it, and so every
/// neighbour of a permutation is a permutation.
pub proof fn lemma_vizinho_permutacao(op: Vizinhanca, s: Seq<usize>, r: Seq<usize>, n: nat)
    requires
        eh_vizinho(op, s, r),
    ensures
        eh_rearranjo(s, r),
        eh_permutacao(s, n) ==> eh_permutacao(r, n),
{
    if s.len() >= tamanho_minimo(op) {
        let (a, b, c) = choose|a: int, b: int, c: int| #[trigger]
            posicoes_validas(op, s.len(), a, b, c) && r == vizinho_em(op, s, a, b, c);
        lemma_vizinho_rearranjo(op, s, a, b, c);
    }
    if eh_permutacao(s, n) {
        lemma_rearranjo_de_permutacao(s, r, n);
    }
}

/// All neighbours of a sequence are rearrangements of it.
pub proof fn lemma_vizinhos_rearranjam(op: Vizinhanca, s: Seq<usize>)
    ensures
        forall|r: Seq<usize>| #[trigger] eh_vizinho(op, s, r) ==> eh_rearranjo(s, r),
{
    assert forall|r: Seq<usize>| #[trigger] eh_vizinho(op, s, r) implies eh_rearranjo(s, r) by {
        lemma_vizinho_permutacao(op, s, r, 0);
    }
}

/// The insertion move that two draws give: the task at position
/// `a mod len` goes to position `b mod len`.
pub fn insercao_com(seq: Sequencia, a: usize, b: usize) -> (r: Sequencia)
    ensures
        seq.len() == 0 ==> r@ == seq@,
        seq.len() > 0 ==> r@ == desloca(
            seq@,
            a as int % seq.len() as int,
            b as int % seq.len() as int,
        ),
        eh_vizinho(Vizinhanca::Insercao, seq@, r@),
{
    let mut seq = seq;
    let ghost antes = seq@;
    let n: usize = seq.len();
    if n == 0 {
        return seq;
    }
    let tidx: usize = a % n;
    let nidx: usize = b % n;
    desloca_em(&mut seq, tidx, nidx);
    assert(posicoes_validas(Vizinhanca::Insercao, antes.len(), tidx as int, nidx as int, 0));
    seq
}

/// The swap that two draws give: positions `a mod len` and `b mod len`
/// exchange their tasks.
pub fn swap_com(seq: Sequencia, a: usize, b: usize) -> (r: Sequencia)
    ensures
        seq.len() == 0 ==> r@ == seq@,
        seq.len() > 0 ==> r@ == troca(seq@, a as int % seq.len() as int, b as int % seq.len() as int),
        eh_vizinho(Vizinhanca::Swap, seq@, r@),
{
    let mut seq = seq;
    let ghost antes = seq@;
    let n: usize = seq.len();
    if n == 0 {
        return seq;
    }
    let i: usize = a % n;
    let j: usize = b % n;
    troca_em(&mut seq, i, j);
    assert(posicoes_validas(Vizinhanca::Swap, antes.len(), i as int, j as int, 0));
    seq
}

/// The adjacent swap that two draws give: with `i = a mod (len - 1)` and
/// `j = b mod (len - 1)`, positions `i` and `j` exchange their tasks, and
/// then positions `i + 1` and `j + 1` do.
pub fn swap_adj_com(seq: Sequencia, a: usize, b: usize) -> (r: Sequencia)
    ensures
        seq.len() < 2 ==> r@ == seq@,
        seq.len() >= 2 ==> {
            let i = a as int % (seq.len() - 1);
            let j = b as int % (seq.len() - 1);
            r@ == troca(troca(seq@, i, j), i + 1, j + 1)
        },
        eh_vizinho(Vizinhanca::SwapAdj, seq@, r@),
{
    let mut seq = seq;
    let ghost antes = seq@;
    let n: usize = seq.len();
    if n < 2 {
        return seq;
    }
    let i: usize = a % (n - 1);
    let j: usize = b % (n - 1);
    troca_em(&mut seq, i, j);
    troca_em(&mut seq, i + 1, j + 1);
    assert(posicoes_validas(Vizinhanca::SwapAdj, antes.len(), i as int, j as int, 0));
    seq
}

/// The three positions `x < y < z` that three draws give in a sequence of
/// length `n >= 3`: `y` among the inner positions, `x` before it, `z` after
/// it.
pub open spec fn posicoes_xyz(a: int, b: int, c: int, n: int) -> (int, int, int) {
    let y = a % (n - 2) + 1;
    let x = b % y;
    let z = c % (n - y - 1) + y + 1;
    (x, y, z)
}

/// The three-point swap that three draws give: with `x < y < z` as
/// [`posicoes_xyz`] has them, positions `x` and `z` exchange their tasks,
/// and then positions `y` and `z` do.
pub fn swap_xyz_com(seq: Sequencia, a: usize, b: usize, c: usize) -> (r: Sequencia)
    ensures
        seq.len() < 3 ==> r@ == seq@,
        seq.len() >= 3 ==> {
            let (x, y, z) = posicoes_xyz(a as int, b as int, c as int, seq.len() as int);
            r@ == troca(troca(seq@, x, z), y, z)
        },
        eh_vizinho(Vizinhanca::SwapXyz, seq@, r@),
{
    let mut seq = seq;
    let ghost antes = seq@;
    let n: usize = seq.len();
    if n < 3 {
        return seq;
    }
    let y: usize = a % (n - 2) + 1;
    let x: usize = b % y;
    let z: usize = c % (n - y - 1) + y + 1;
    troca_em(&mut seq, x, z);
    troca_em(&mut seq, y, z);
    assert(posicoes_validas(Vizinhanca::SwapXyz, antes.len(), x as int, y as int, z as int));
    seq
}

/// Moves a task drawn from `rng` to a position drawn from `rng`.
pub fn insercao(rng: &mut rand::XorShiftRng, seq: Sequencia) -> (r: Sequencia)
    ensures
        eh_vizinho(Vizinhanca::Insercao, seq@, r@),
        eh_rearranjo(seq@, r@),
{
    proof {
        lemma_vizinhos_rearranjam(Vizinhanca::Insercao, seq@);
    }
    let a: usize = sorteia(rng);
    let b: usize = sorteia(rng);
    insercao_com(seq, a, b)
}

/// Exchanges the tasks of two positions drawn from `rng`.
pub fn swap(rng: &mut rand::XorShiftRng, seq: Sequencia) -> (r: Sequencia)
    ensures
        eh_vizinho(Vizinhanca::Swap, seq@, r@),
        eh_rearranjo(seq@, r@),
{
    proof {
        lemma_vizinhos_rearranjam(Vizinhanca::Swap, seq@);
    }
    let a: usize = sorteia(rng);
    let b: usize = sorteia(rng);
    swap_com(seq, a, b)
}

/// Exchanges two pairs of adjacent tasks whose positions are drawn from
/// `rng`.
pub fn swap_adj(rng: &mut rand::XorShiftRng, seq: Sequencia) -> (r: Sequencia)
    ensures
        eh_vizinho(Vizinhanca::SwapAdj, seq@, r@),
        eh_rearranjo(seq@, r@),
{
    proof {
        lemma_vizinhos_rearranjam(Vizinhanca::SwapAdj, seq@);
    }
    let a: usize = sorteia(rng);
    let b: usize = sorteia(rng);
    swap_adj_com(seq, a, b)
}

/// Rotates the tasks of three positions drawn from `rng`.
pub fn swap_xyz(rng: &mut rand::XorShiftRng, seq: Sequencia) -> (r: Sequencia)
    ensures
        eh_vizinho(Vizinhanca::SwapXyz, seq@, r@),
        eh_rearranjo(seq@, r@),
{
    proof {
        lemma_vizinhos_rearranjam(Vizinhanca::SwapXyz, seq@);
    }
    let a: usize = sorteia(rng);
    let b: usize = sorteia(rng);
    let c: usize = sorteia(rng);
    swap_xyz_com(seq, a, b, c)
}

/// A neighbour of `seq` in the given neighbourhood, drawn from `rng`.
pub fn aplica(op: Vizinhanca, rng: &mut rand::XorShiftRng, seq: Sequencia) -> (r: Sequencia)
    ensures
        eh_vizinho(op, seq@, r@),
        eh_rearranjo(seq@, r@),
{
    match op {
        Vizinhanca::Insercao => insercao(rng, seq),
        Vizinhanca::Swap => swap(rng, seq),
        Vizinhanca::SwapAdj => swap_adj(rng, seq),
        Vizinhanca::SwapXyz => swap_xyz(rng, seq),
    }
}

/// `depois` is `antes` itself, or a strictly cheaper solution that
/// schedules the same tasks and carries the cost that the objective function
/// of `ts` gives it.
pub open spec fn eh_descida(ts: Seq<DadosTarefa>, antes: DadosSolucao, depois: DadosSolucao) -> bool {
    depois == antes || {
        &&& depois.fo < antes.fo
        &&& eh_rearranjo(antes.sequencia, depois.sequencia)
        &&& depois.avaliada(ts)
    }
}

/// A descent from a schedule of the tasks ends in a schedule of the tasks.
pub proof fn lemma_descida_resolve(ts: Seq<DadosTarefa>, antes: DadosSolucao, depois: DadosSolucao)
    requires
        eh_descida(ts, antes, depois),
        antes.resolve(ts),
    ensures
        depois.resolve(ts),
{
    if depois != antes {
        lemma_rearranjo_de_permutacao(antes.sequencia, depois.sequencia, ts.len());
    }
}

/// Descents chain.
pub proof fn lemma_descida_transitiva(
    ts: Seq<DadosTarefa>,
    a: DadosSolucao,
    b: DadosSolucao,
    c: DadosSolucao,
)
    requires
        eh_descida(ts, a, b),
        eh_descida(ts, b, c),
    ensures
        eh_descida(ts, a, c),
{
}

/// `num_vizinhos` neighbours of the sequence, each drawn from `rng`.
pub fn amostra_vizinhos(
    rng: &mut rand::XorShiftRng,
    operador: Vizinhanca,
    seq: &Sequencia,
    num_vizinhos: u32,
) -> (vizinhos: Vec<Sequencia>)
    ensures
        vizinhos.len() == num_vizinhos,
        forall|i: int|
            0 <= i < vizinhos.len() ==> eh_vizinho(operador, seq@, (#[trigger] vizinhos[i])@),
{
    let mut vizinhos: Vec<Sequencia> = Vec::new();
    let mut i: u32 = 0;
    while i < num_vizinhos
        invariant
            0 <= i <= num_vizinhos,
            vizinhos.len() == i,
            forall|k: int|
                0 <= k < vizinhos.len() ==> eh_vizinho(operador, seq@, (#[trigger] vizinhos[k])@),
        decreases num_vizinhos - i,
    {
        let copia: Sequencia = seq.clone();
        assert(copia@ =~= seq@);
        vizinhos.push(aplica(operador, rng, copia));
        i = i + 1;
    }
    vizinhos
}

/// None of the candidates is cheaper than `fo`.
pub open spec fn nenhum_melhora(ts: Seq<DadosTarefa>, candidatos: Seq<Sequencia>, fo: int) -> bool {
    forall|j: int| 0 <= j < candidatos.len() ==> avalia(ts, (#[trigger] candidatos[j])@) >= fo
}

/// Candidate `k` is the best: none is cheaper, and all before it are dearer.
pub open spec fn eh_melhor_candidato(ts: Seq<DadosTarefa>, candidatos: Seq<Sequencia>, k: int) -> bool {
    &&& 0 <= k < candidatos.len()
    &&& forall|j: int|
        0 <= j < candidatos.len() ==> avalia(ts, (#[trigger] candidatos[j])@) >= avalia(
            ts,
            candidatos[k]@,
        )
    &&& forall|j: int|
        0 <= j < k ==> avalia(ts, (#[trigger] candidatos[j])@) > avalia(ts, candidatos[k]@)
}

/// `amostra` is a sample of `num` neighbours of `s` in the neighbourhood.
pub open spec fn eh_amostra(op: Vizinhanca, s: Seq<usize>, num: nat, amostra: Seq<Sequencia>) -> bool {
    &&& amostra.len() == num
    &&& forall|i: int| 0 <= i < amostra.len() ==> eh_vizinho(op, s, (#[trigger] amostra[i])@)
}

/// `best` is what comes of the solution and the candidates: the solution
/// where no candidate is cheaper, else the first of the cheapest candidates
/// with the cost that the objective function gives it.
pub open spec fn eh_melhor_entre(
    ts: Seq<DadosTarefa>,
    solucao: DadosSolucao,
    candidatos: Seq<Sequencia>,
    best: DadosSolucao,
) -> bool {
    if nenhum_melhora(ts, candidatos, solucao.fo) {
        best == solucao
    } else {
        exists|k: int|
            {
                &&& #[trigger] eh_melhor_candidato(ts, candidatos, k)
                &&& best.sequencia == candidatos[k]@
                &&& best.fo == avalia(ts, candidatos[k]@)
                &&& best.fo < solucao.fo
            }
    }
}

/// `best` is what comes of the solution and some sample of `num` of its
/// neighbours: see [`eh_melhor_entre`].
pub open spec fn eh_melhoria_amostrada(
    ts: Seq<DadosTarefa>,
    op: Vizinhanca,
    num: nat,
    solucao: DadosSolucao,
    best: DadosSolucao,
) -> bool {
    exists|amostra: Seq<Sequencia>| #[trigger]
        eh_amostra(op, solucao.sequencia, num, amostra) && eh_melhor_entre(
            ts,
            solucao,
            amostra,
            best,
        )
}

/// Some sample of `num` neighbours of the solution holds none that is
/// cheaper than the solution.
pub open spec fn resiste_a_amostra(
    ts: Seq<DadosTarefa>,
    op: Vizinhanca,
    num: nat,
    solucao: DadosSolucao,
) -> bool {
    exists|amostra: Seq<Sequencia>| #[trigger]
        eh_amostra(op, solucao.sequencia, num, amostra) && nenhum_melhora(ts, amostra, solucao.fo)
}

/// The neighbourhoods in the order of the descent: insertion, swap, adjacent
/// swap, three-point swap.
pub open spec fn vizinhanca_em(k: int) -> Vizinhanca {
    if k == 0 {
        Vizinhanca::Insercao
    } else if k == 1 {
        Vizinhanca::Swap
    } else if k == 2 {
        Vizinhanca::SwapAdj
    } else {
        Vizinhanca::SwapXyz
    }
}

/// The solution has stood against a sample of `num` neighbours in each of
/// the four neighbourhoods.
pub open spec fn resiste_a_todas(ts: Seq<DadosTarefa>, num: nat, solucao: DadosSolucao) -> bool {
    forall|k: int| 0 <= k < 4 ==> resiste_a_amostra(ts, #[trigger] vizinhanca_em(k), num, solucao)
}

/// The best of the candidates, evaluated, if it is strictly cheaper than
/// the solution; else the solution itself. Of equally cheap candidates the
/// first wins.
pub fn melhor_entre(inst: &Instancia, solucao: &Solucao, candidatos: Vec<Sequencia>) -> (best:
    Solucao)
    ensures
        eh_melhor_entre(inst@, solucao@, candidatos@, best@),
        nenhum_melhora(inst@, candidatos@, solucao@.fo) ==> best@ == solucao@,
        !nenhum_melhora(inst@, candidatos@, solucao@.fo) ==> exists|k: int|
            {
                &&& #[trigger] eh_melhor_candidato(inst@, candidatos@, k)
                &&& best@.sequencia == candidatos[k]@
                &&& best@.fo == avalia(inst@, candidatos[k]@)
                &&& best@.fo < solucao@.fo
            },
{
    let ghost ts = inst@;
    let ghost todos = candidatos@;
    let mut candidatos = candidatos;
    let n: usize = candidatos.len();
    let mut best: Solucao = solucao.clone();
    let mut best_fo: i32 = best.fo();
    let ghost mut bk: int = 0;
    let mut i: usize = 0;
    while i < n
        invariant
            0 <= i <= n,
            ts == inst@,
            n == todos.len(),
            candidatos.len() == n,
            forall|k: int| i <= k < n ==> candidatos[k] == todos[k],
            best_fo == best@.fo,
            best_fo <= solucao@.fo,
            forall|j: int| 0 <= j < i ==> avalia(ts, (#[trigger] todos[j])@) >= best_fo,
            best_fo == solucao@.fo ==> best@ == solucao@,
            best_fo < solucao@.fo ==> {
                &&& 0 <= bk < i
                &&& best@.sequencia == todos[bk]@
                &&& best_fo == avalia(ts, todos[bk]@)
                &&& forall|j: int| 0 <= j < bk ==> avalia(ts, (#[trigger] todos[j])@) > best_fo
            },
        decreases n - i,
    {
        let mut seq: Sequencia = Vec::new();
        core::mem::swap(&mut seq, &mut candidatos[i]);
        assert(seq == todos[i as int]);
        let viz = Solucao::new(inst, seq);
        let fo: i32 = viz.fo();
        if fo < best_fo {
            best = viz;
            best_fo = fo;
            proof {
                bk = i as int;
            }
        }
        i = i + 1;
    }
    proof {
        if best_fo < solucao@.fo {
            assert(eh_melhor_candidato(ts, todos, bk));
            assert(avalia(ts, todos[bk]@) < solucao@.fo);
        }
    }
    best
}

/// The best of `num_vizinhos` neighbours of the solution drawn from `rng`,
/// if it is strictly cheaper than the solution; else the solution itself.
pub fn best_improvement(
    rng: &mut rand::XorShiftRng,
    solucao: &Solucao,
    inst: &Instancia,
    operador: Vizinhanca,
    num_vizinhos: u32,
) -> (best: Solucao)
    ensures
        eh_melhoria_amostrada(inst@, operador, num_vizinhos as nat, solucao@, best@),
        best@ == solucao@ || {
            &&& best@.fo < solucao@.fo
            &&& eh_vizinho(operador, solucao@.sequencia, best@.sequencia)
            &&& best@.avaliada(inst@)
        },
        eh_descida(inst@, solucao@, best@),
        num_vizinhos == 0 ==> best@ == solucao@,
{
    let vizinhos = amostra_vizinhos(rng, operador, solucao.sequencia(), num_vizinhos);
    let ghost amostra = vizinhos@;
    let best = melhor_entre(inst, solucao, vizinhos);
    proof {
        assert(eh_amostra(operador, solucao@.sequencia, num_vizinhos as nat, amostra));
        if best@ != solucao@ {
            lemma_vizinho_permutacao(operador, solucao@.sequencia, best@.sequencia, 0);
        }
    }
    best
}

/// The neighbourhoods in the order of the descent.
pub fn vizinhanca_de_ordem(k: usize) -> (op: Vizinhanca)
    requires
        k < 4,
    ensures
        op == vizinhanca_em(k as int),
{
    let vizinhancas: [Vizinhanca; 4] = [
        Vizinhanca::Insercao,
        Vizinhanca::Swap,
        Vizinhanca::SwapAdj,
        Vizinhanca::SwapXyz,
    ];
    vizinhancas[k]
}

/// Variable neighbourhood descent: samples the current neighbourhood of the
/// best solution so far; an improvement becomes the best solution and the
/// descent starts over at the first neighbourhood, a failure moves it on to
/// the next. It ends when the last neighbourhood has failed: the result has
/// stood against a sample in each of the four.
pub fn vnd(rng: &mut rand::XorShiftRng, inst: &Instancia, solucao: &Solucao, num_vizinhos: u32) -> (sbest:
    Solucao)
    ensures
        resiste_a_todas(inst@, num_vizinhos as nat, sbest@),
        eh_descida(inst@, solucao@, sbest@),
        solucao@.resolve(inst@) ==> sbest@.resolve(inst@),
        num_vizinhos == 0 ==> sbest@ == solucao@,
{
    let nv: usize = 4;
    let mut k: usize = 0;
    let mut sbest: Solucao = solucao.clone();
    let mut fo_atual: i32 = sbest.fo();
    while k < nv
        invariant
            nv == 4,
            0 <= k <= nv,
            eh_descida(inst@, solucao@, sbest@),
            num_vizinhos == 0 ==> sbest@ == solucao@,
            fo_atual == sbest@.fo,
            0 <= fo_atual,
            forall|j: int|
                0 <= j < k ==> resiste_a_amostra(
                    inst@,
                    #[trigger] vizinhanca_em(j),
                    num_vizinhos as nat,
                    sbest@,
                ),
        decreases fo_atual, nv - k,
    {
        let sviz = best_improvement(rng, &sbest, inst, vizinhanca_de_ordem(k), num_vizinhos);
        let fo_viz: i32 = sviz.fo();
        proof {
            if fo_viz >= fo_atual {
                let amostra = choose|amostra: Seq<Sequencia>| #[trigger]
                    eh_amostra(
                        vizinhanca_em(k as int),
                        sbest@.sequencia,
                        num_vizinhos as nat,
                        amostra,
                    ) && eh_melhor_entre(inst@, sbest@, amostra, sviz@);
                assert(nenhum_melhora(inst@, amostra, sbest@.fo));
                assert(resiste_a_amostra(
                    inst@,
                    vizinhanca_em(k as int),
                    num_vizinhos as nat,
                    sbest@,
                ));
            }
        }
        if fo_viz < fo_atual {
            proof {
                lemma_descida_transitiva(inst@, solucao@, sbest@, sviz@);
            }
            sbest = sviz;
            fo_atual = fo_viz;
            k = 0;
        } else {
            k = k + 1;
        }
    }
    proof {
        if solucao@.resolve(inst@) {
            lemma_descida_resolve(inst@, solucao@, sbest@);
        }
    }
    sbest
}

/// The local search of the engine: the variable neighbourhood descent.
pub fn busca_local(
    rng: &mut rand::XorShiftRng,
    inst: &Instancia,
    s: &Solucao,
    num_vizinhos: u32,
) -> (r: Solucao)
    ensures
        resiste_a_todas(inst@, num_vizinhos as nat, r@),
        eh_descida(inst@, s@, r@),
        s@.resolve(inst@) ==> r@.resolve(inst@),
        num_vizinhos == 0 ==> r@ == s@,
{
    vnd(rng, inst, s, num_vizinhos)
}

/// The sequence with the segment `[i, k)` reversed.
pub fn two_opt_swap(sequencia: Sequencia, i: usize, k: usize) -> (r: Sequencia)
    requires
        i <= k <= sequencia.len(),
    ensures
        r@ == inverte(sequencia@, i as int, k as int),
        eh_rearranjo(sequencia@, r@),
{
    let mut sequencia = sequencia;
    inverte_em(&mut sequencia, i, k);
    sequencia
}

/// The segments that the exhaustive 2-opt scan reverses in a sequence of
/// `n` tasks, in the order of the scan: `[i, k)` comes before `[i2, k2)`.
pub open spec fn antes_na_varredura(i: int, k: int, i2: int, k2: int) -> bool {
    i < i2 || (i == i2 && k < k2)
}

/// `[i, k)` is one of the segments of the scan.
pub open spec fn trecho_2opt(n: nat, i: int, k: int) -> bool {
    0 <= i < k < n
}

/// What the objective function gives `s` with the segment `[i, k)` reversed.
pub open spec fn custo_2opt(ts: Seq<DadosTarefa>, s: Seq<usize>, i: int, k: int) -> int {
    avalia(ts, inverte(s, i, k))
}

/// No segment of the scan, reversed, makes `s` cheaper than `fo`.
pub open spec fn otimo_2opt(ts: Seq<DadosTarefa>, s: Seq<usize>, fo: int) -> bool {
    forall|i: int, k: int| #[trigger] trecho_2opt(ts.len(), i, k) ==> custo_2opt(ts, s, i, k) >= fo
}

/// `[i, k)` is the segment that the scan settles on: reversing it is as
/// cheap as reversing any segment of the scan, and cheaper than reversing
/// any that the scan meets before it.
pub open spec fn melhor_trecho_2opt(ts: Seq<DadosTarefa>, s: Seq<usize>, i: int, k: int) -> bool {
    &&& trecho_2opt(ts.len(), i, k)
    &&& forall|i2: int, k2: int| #[trigger]
        trecho_2opt(ts.len(), i2, k2) ==> {
            &&& custo_2opt(ts, s, i2, k2) >= custo_2opt(ts, s, i, k)
            &&& antes_na_varredura(i2, k2, i, k) ==> custo_2opt(ts, s, i2, k2) > custo_2opt(
                ts,
                s,
                i,
                k,
            )
        }
}

/// `depois` is what one round of exhaustive 2-opt makes of `antes`: the
/// segment that the scan settles on is reversed, and that is strictly
/// cheaper.
pub open spec fn eh_rodada_2opt(ts: Seq<DadosTarefa>, antes: DadosSolucao, depois: DadosSolucao) -> bool {
    exists|i: int, k: int|
        {
            &&& #[trigger] melhor_trecho_2opt(ts, antes.sequencia, i, k)
            &&& depois.sequencia == inverte(antes.sequencia, i, k)
            &&& depois.fo == custo_2opt(ts, antes.sequencia, i, k)
            &&& depois.fo < antes.fo
        }
}

/// Each solution of the chain but the first is what one round of
/// exhaustive 2-opt makes of the one before it.
pub open spec fn eh_cadeia_2opt(ts: Seq<DadosTarefa>, cadeia: Seq<DadosSolucao>) -> bool {
    &&& cadeia.len() >= 1
    &&& forall|i: int|
        0 <= i < cadeia.len() - 1 ==> eh_rodada_2opt(ts, #[trigger] cadeia[i], cadeia[i + 1])
}

/// One round of exhaustive 2-opt: the cheapest solution that reversing one
/// segment of the scan leads to, the first such in the order of the scan,
/// if it is strictly cheaper than the solution; nothing otherwise.
pub fn two_opt_loop(inst: &Instancia, solucao: &Solucao) -> (r: Option<Solucao>)
    requires
        solucao@.sequencia.len() == inst@.len(),
    ensures
        r is None <==> otimo_2opt(inst@, solucao@.sequencia, solucao@.fo),
        r matches Some(best) ==> eh_rodada_2opt(inst@, solucao@, best@),
{
    let num_tarefas: usize = inst.num_tarefas();
    let ghost ts = inst@;
    let ghost s = solucao@.sequencia;
    let fo: i32 = solucao.fo();
    let mut best: Option<Solucao> = None;
    let mut best_fo: i32 = fo;
    let ghost mut bi: int = 0;
    let ghost mut bk: int = 0;
    if num_tarefas == 0 {
        assert(otimo_2opt(ts, s, fo as int));
        return None;
    }
    let mut i: usize = 0;
    while i < num_tarefas - 1
        invariant
            0 <= i <= num_tarefas - 1,
            num_tarefas == ts.len(),
            ts == inst@,
            s == solucao@.sequencia,
            s.len() == num_tarefas,
            fo == solucao@.fo,
            best_fo <= fo,
            best is None ==> best_fo == fo,
            // Every segment met so far costs at least the best cost.
            forall|i2: int, k2: int| #[trigger]
                trecho_2opt(ts.len(), i2, k2) && i2 < i ==> custo_2opt(ts, s, i2, k2) >= best_fo,
            best matches Some(b) ==> {
                &&& trecho_2opt(ts.len(), bi, bk)
                &&& bi < i
                &&& b@.sequencia == inverte(s, bi, bk)
                &&& b@.fo == custo_2opt(ts, s, bi, bk)
                &&& b@.fo == best_fo
                &&& best_fo < fo
                &&& forall|i2: int, k2: int| #[trigger]
                    trecho_2opt(ts.len(), i2, k2) && antes_na_varredura(i2, k2, bi, bk)
                        ==> custo_2opt(ts, s, i2, k2) > best_fo
            },
        decreases num_tarefas - i,
    {
        let mut k: usize = i + 1;
        while k < num_tarefas
            invariant
                0 <= i < num_tarefas - 1,
                i + 1 <= k <= num_tarefas,
                num_tarefas == ts.len(),
                ts == inst@,
                s == solucao@.sequencia,
                s.len() == num_tarefas,
                fo == solucao@.fo,
                best_fo <= fo,
                best is None ==> best_fo == fo,
                forall|i2: int, k2: int| #[trigger]
                    trecho_2opt(ts.len(), i2, k2) && (i2 < i || (i2 == i && k2 < k))
                        ==> custo_2opt(ts, s, i2, k2) >= best_fo,
                best matches Some(b) ==> {
                    &&& trecho_2opt(ts.len(), bi, bk)
                    &&& (bi < i || (bi == i && bk < k))
                    &&& b@.sequencia == inverte(s, bi, bk)
                    &&& b@.fo == custo_2opt(ts, s, bi, bk)
                    &&& b@.fo == best_fo
                    &&& best_fo < fo
                    &&& forall|i2: int, k2: int| #[trigger]
                        trecho_2opt(ts.len(), i2, k2) && antes_na_varredura(i2, k2, bi, bk)
                            ==> custo_2opt(ts, s, i2, k2) > best_fo
                },
            decreases num_tarefas - k,
        {
            let seq: Sequencia = solucao.sequencia().clone();
            assert(seq@ =~= s);
            let nova = two_opt_swap(seq, i, k);
            let nova = Solucao::new(inst, nova);
            let nova_fo: i32 = nova.fo();
            assert(nova_fo == custo_2opt(ts, s, i as int, k as int));
            if nova_fo < best_fo {
                proof {
                    bi = i as int;
                    bk = k as int;
                    assert(trecho_2opt(ts.len(), bi, bk));
                }
                best = Some(nova);
                best_fo = nova_fo;
            }
            k = k + 1;
        }
        i = i + 1;
    }
    proof {
        assert forall|i2: int, k2: int| #[trigger] trecho_2opt(ts.len(), i2, k2) implies custo_2opt(
            ts,
            s,
            i2,
            k2,
        ) >= best_fo by {
            assert(i2 < num_tarefas - 1);
        }
        if best is Some {
            assert(melhor_trecho_2opt(ts, s, bi, bk));
            assert(!otimo_2opt(ts, s, fo as int));
        } else {
            assert(otimo_2opt(ts, s, fo as int));
        }
    }
    best
}

/// Exhaustive 2-opt descent: rounds of [`two_opt_loop`] until one finds no
/// improvement. The result is the local optimum that the rounds lead to:
/// reversing no segment of the scan makes it cheaper.
pub fn busca_local_vizinho(inst: &Instancia, solucao: &Solucao) -> (atual: Solucao)
    requires
        solucao@.sequencia.len() == inst@.len(),
    ensures
        exists|cadeia: Seq<DadosSolucao>|
            {
                &&& #[trigger] eh_cadeia_2opt(inst@, cadeia)
                &&& cadeia.first() == solucao@
                &&& cadeia.last() == atual@
            },
        otimo_2opt(inst@, atual@.sequencia, atual@.fo),
        eh_descida(inst@, solucao@, atual@),
        solucao@.resolve(inst@) ==> atual@.resolve(inst@),
{
    let mut atual: Solucao = solucao.clone();
    let mut fo_atual: i32 = atual.fo();
    let ghost mut cadeia: Seq<DadosSolucao> = seq![solucao@];
    loop
        invariant_except_break
            eh_descida(inst@, solucao@, atual@),
            eh_cadeia_2opt(inst@, cadeia),
            cadeia.first() == solucao@,
            cadeia.last() == atual@,
            atual@.sequencia.len() == inst@.len(),
            fo_atual == atual@.fo,
            0 <= fo_atual,
        ensures
            eh_descida(inst@, solucao@, atual@),
            eh_cadeia_2opt(inst@, cadeia),
            cadeia.first() == solucao@,
            cadeia.last() == atual@,
            otimo_2opt(inst@, atual@.sequencia, atual@.fo),
        decreases fo_atual,
    {
        match two_opt_loop(inst, &atual) {
            Some(nova) => {
                proof {
                    let (i, k) = choose|i: int, k: int|
                        {
                            &&& #[trigger] melhor_trecho_2opt(inst@, atual@.sequencia, i, k)
                            &&& nova@.sequencia == inverte(atual@.sequencia, i, k)
                            &&& nova@.fo == custo_2opt(inst@, atual@.sequencia, i, k)
                            &&& nova@.fo < atual@.fo
                        };
                    crate::permutacao::lemma_inverte_rearranjo(atual@.sequencia, i, k);
                    assert(eh_descida(inst@, atual@, nova@));
                    lemma_descida_transitiva(inst@, solucao@, atual@, nova@);
                    let antes = cadeia;
                    cadeia = antes.push(nova@);
                    assert forall|j: int| 0 <= j < cadeia.len() - 1 implies eh_rodada_2opt(
                        inst@,
                        #[trigger] cadeia[j],
                        cadeia[j + 1],
                    ) by {
                        if j < antes.len() - 1 {
                            assert(eh_rodada_2opt(inst@, antes[j], antes[j + 1]));
                        }
                    }
                }
                fo_atual = nova.fo();
                atual = nova;
            },
            None => {
                break ;
            },
        }
    }
    proof {
        if solucao@.resolve(inst@) {
            lemma_descida_resolve(inst@, solucao@, atual@);
        }
    }
    atual
}

/// The size of the restricted candidate list when `restantes` tasks wait:
/// the share `alfa` of them, rounded up.
pub fn numero_de_candidatos(restantes: usize, alfa: &Fracao) -> (num: usize)
    ensures
        num == alfa@.teto_de(restantes as nat),
        num <= restantes,
        num == 0 <==> (restantes == 0 || alfa@.num == 0),
{
    alfa.teto_de(restantes)
}

/// Task `a` comes before task `b` by due date: it is due earlier, or at the
/// same time and has the smaller id.
pub open spec fn vence_antes(ts: Seq<DadosTarefa>, a: usize, b: usize) -> bool {
    ts[a as int].entrega < ts[b as int].entrega || (ts[a as int].entrega == ts[b as int].entrega
        && a < b)
}

/// `abertos` lists the tasks that are not marked, by ascending due date,
/// equal due dates in the order of their ids.
pub open spec fn eh_lista_de_abertos(
    ts: Seq<DadosTarefa>,
    marcados: Seq<bool>,
    abertos: Seq<usize>,
) -> bool {
    &&& abertos.no_duplicates()
    &&& forall|i: int| 0 <= i < abertos.len() ==> abertos[i] < ts.len() && !marcados[abertos[i] as int]
    &&& forall|v: int| 0 <= v < ts.len() && !marcados[v] ==> abertos.contains(v as usize)
    &&& forall|i: int, j: int|
        0 <= i < j < abertos.len() ==> vence_antes(ts, abertos[i], abertos[j])
}

/// The tasks that are not marked, by ascending due date.
pub fn lista_de_abertos(inst: &Instancia, marcados: &Vec<bool>) -> (abertos: Vec<IdTarefa>)
    requires
        marcados.len() == inst@.len(),
    ensures
        eh_lista_de_abertos(inst@, marcados@, abertos@),
{
    let n: usize = inst.num_tarefas();
    let ghost ts = inst@;
    let mut livres: Vec<usize> = Vec::new();
    let mut chaves: Vec<i64> = Vec::new();
    let mut t: usize = 0;
    while t < n
        invariant
            0 <= t <= n,
            ts == inst@,
            n == ts.len(),
            marcados.len() == n,
            chaves.len() == livres.len(),
            forall|i: int| 0 <= i < livres.len() ==> livres[i] < t && !marcados[livres[i] as int],
            forall|i: int, j: int| 0 <= i < j < livres.len() ==> livres[i] < livres[j],
            forall|v: int| 0 <= v < t && !marcados[v] ==> livres@.contains(v as usize),
            forall|i: int| 0 <= i < livres.len() ==> chaves[i] == ts[livres[i] as int].entrega,
        decreases n - t,
    {
        if !marcados[t] {
            let ghost antes = livres@;
            livres.push(t);
            chaves.push(inst.tarefa(t).entrega() as i64);
            proof {
                assert forall|v: int| 0 <= v < t + 1 && !marcados[v] implies livres@.contains(
                    v as usize,
                ) by {
                    if v < t {
                        let k = antes.index_of(v as usize);
                        assert(livres[k] == v);
                    } else {
                        assert(livres[livres.len() - 1] == v);
                    }
                }
            }
        }
        t = t + 1;
    }
    let ordem = ordem_estavel(&chaves);
    let mut abertos: Vec<usize> = Vec::new();
    let mut i: usize = 0;
    while i < ordem.len()
        invariant
            0 <= i <= ordem.len(),
            ordem.len() == livres.len(),
            forall|k: int| 0 <= k < ordem.len() ==> ordem[k] < livres.len(),
            abertos.len() == i,
            forall|k: int| 0 <= k < i ==> abertos[k] == livres[ordem[k] as int],
        decreases ordem.len() - i,
    {
        abertos.push(livres[ordem[i]]);
        i = i + 1;
    }
    proof {
        let ints = inteiros(chaves@);
        assert forall|a: int, b: int| 0 <= a < b < abertos.len() implies vence_antes(
            ts,
            abertos[a],
            abertos[b],
        ) by {
            assert(precede(ints, ordem[a] as int, ordem[b] as int));
            assert(ints[ordem[a] as int] == chaves[ordem[a] as int]);
            assert(ints[ordem[b] as int] == chaves[ordem[b] as int]);
        }
        assert forall|a: int, b: int|
            0 <= a < abertos.len() && 0 <= b < abertos.len() && a != b implies abertos[a]
            != abertos[b] by {
            let x = ordem[a] as int;
            let y = ordem[b] as int;
            assert(x != y);
            if x < y {
                assert(livres[x] < livres[y]);
            } else {
                assert(livres[y] < livres[x]);
            }
        }
        assert forall|v: int| 0 <= v < ts.len() && !marcados[v] implies abertos@.contains(
            v as usize,
        ) by {
            let k = livres@.index_of(v as usize);
            crate::permutacao::lemma_permutacao_cobre(ordem@, livres.len() as nat, k as usize);
            let m = ordem@.index_of(k as usize);
            assert(abertos[m] == v);
        }
    }
    abertos
}

/// Which of the first `n` ids occur in `s`.
pub open spec fn marcas_de(s: Seq<usize>, n: nat) -> Seq<bool> {
    Seq::new(n, |v: int| s.contains(v as usize))
}

/// The tasks of `ts` that are not scheduled in `agendadas`, by ascending due
/// date, equal due dates in the order of their ids.
pub open spec fn abertos_de(ts: Seq<DadosTarefa>, agendadas: Seq<usize>) -> Seq<usize> {
    choose|abertos: Seq<usize>| eh_lista_de_abertos(ts, marcas_de(agendadas, ts.len()), abertos)
}

/// Two lists of the same open tasks agree on their first `p` positions.
proof fn lemma_abertos_iguais_ate(
    ts: Seq<DadosTarefa>,
    marcados: Seq<bool>,
    a: Seq<usize>,
    b: Seq<usize>,
    p: int,
)
    requires
        eh_lista_de_abertos(ts, marcados, a),
        eh_lista_de_abertos(ts, marcados, b),
        a.len() == b.len(),
        0 <= p <= a.len(),
    ensures
        forall|k: int| 0 <= k < p ==> a[k] == b[k],
    decreases p,
{
    if p > 0 {
        lemma_abertos_iguais_ate(ts, marcados, a, b, p - 1);
        let q = p - 1;
        if a[q] != b[q] {
            // Each of the two tasks sits later in the other list, so each is
            // due before the other.
            assert(b.contains(a[q] as int as usize));
            assert(a.contains(b[q] as int as usize));
            let j = b.index_of(a[q]);
            let k = a.index_of(b[q]);
            if j < q {
                assert(a[j] == b[j]);
            }
            if k < q {
                assert(b[k] == a[k]);
            }
            assert(vence_antes(ts, b[q], b[j]));
            assert(vence_antes(ts, a[q], a[k]));
        }
    }
}

/// There is one list of the open tasks only.
pub proof fn lemma_lista_de_abertos_unica(
    ts: Seq<DadosTarefa>,
    marcados: Seq<bool>,
    a: Seq<usize>,
    b: Seq<usize>,
)
    requires
        eh_lista_de_abertos(ts, marcados, a),
        eh_lista_de_abertos(ts, marcados, b),
    ensures
        a == b,
{
    assert forall|x: usize| a.contains(x) <==> b.contains(x) by {
        if a.contains(x) {
            let i = a.index_of(x);
            assert(a[i] == x);
            assert(b.contains(x as int as usize));
        }
        if b.contains(x) {
            let i = b.index_of(x);
            assert(b[i] == x);
            assert(a.contains(x as int as usize));
        }
    }
    assert(a.to_set() =~= b.to_set());
    a.unique_seq_to_set();
    b.unique_seq_to_set();
    lemma_abertos_iguais_ate(ts, marcados, a, b, a.len() as int);
    assert(a =~= b);
}

/// The sequence that the construction by due date has built after `k`
/// steps with the given draws. The first draw, reduced modulo the number of
/// tasks, names the first task. Each further draw, reduced modulo the size
/// of the candidate list, picks one of the first `ceil(alfa * waiting)`
/// tasks that wait, and the task goes to the end of the sequence.
pub open spec fn edd_ate(
    ts: Seq<DadosTarefa>,
    alfa: crate::fracao::Razao,
    sorteios: Seq<usize>,
    k: int,
) -> Seq<usize>
    decreases k,
{
    if k <= 0 {
        Seq::empty()
    } else if k == 1 {
        seq![(sorteios[0] as int % ts.len() as int) as usize]
    } else {
        let antes = edd_ate(ts, alfa, sorteios, k - 1);
        let abertos = abertos_de(ts, antes);
        antes.push(abertos[sorteios[k - 1] as int % alfa.teto_de(abertos.len()) as int])
    }
}

/// `seq` is what the construction by due date makes of the tasks `ts` with
/// some draws, one for each task.
pub open spec fn pode_ser_edd(ts: Seq<DadosTarefa>, alfa: crate::fracao::Razao, seq: Seq<usize>) -> bool {
    exists|sorteios: Seq<usize>|
        sorteios.len() == ts.len() && seq == #[trigger] edd_ate(
            ts,
            alfa,
            sorteios,
            ts.len() as int,
        )
}

/// Semi-greedy construction by due date alone, with given draws. The first
/// draw names the first task; each further one picks among the first
/// `ceil(alfa * waiting)` of the tasks that wait, ranked by ascending due
/// date. The tasks are scheduled in the order in which they are picked.
pub fn earliest_due_date_com(inst: &Instancia, alfa: &Fracao, sorteios: &Vec<usize>) -> (sequencia:
    Sequencia)
    requires
        sorteios.len() == inst@.len(),
        alfa@.num > 0 || inst@.len() <= 1,
    ensures
        sequencia@ == edd_ate(inst@, alfa@, sorteios@, inst@.len() as int),
        eh_permutacao(sequencia@, inst@.len()),
{
    let num_tarefas: usize = inst.num_tarefas();
    let ghost ts = inst@;
    let mut sequencia: Sequencia = Vec::new();
    if num_tarefas == 0 {
        return sequencia;
    }
    let mut marcados: Vec<bool> = Vec::new();
    let mut i: usize = 0;
    while i < num_tarefas
        invariant
            0 <= i <= num_tarefas,
            marcados.len() == i,
            forall|v: int| 0 <= v < i ==> !marcados[v],
        decreases num_tarefas - i,
    {
        marcados.push(false);
        i = i + 1;
    }
    let inicial: usize = sorteios[0] % num_tarefas;
    sequencia.push(inicial);
    marcados[inicial] = true;
    proof {
        assert forall|v: int| 0 <= v < num_tarefas implies (marcados[v] <==> sequencia@.contains(
            v as usize,
        )) by {
            if v == inicial {
                assert(sequencia[0] == v);
            }
        }
        assert(sequencia@ =~= edd_ate(ts, alfa@, sorteios@, 1));
    }
    while sequencia.len() < num_tarefas
        invariant
            ts == inst@,
            num_tarefas == ts.len(),
            sorteios.len() == num_tarefas,
            1 <= sequencia.len() <= num_tarefas,
            marcados.len() == num_tarefas,
            sequencia@.no_duplicates(),
            forall|k: int| 0 <= k < sequencia.len() ==> sequencia[k] < num_tarefas,
            forall|v: int|
                0 <= v < num_tarefas ==> (marcados[v] <==> sequencia@.contains(v as usize)),
            alfa@.num > 0 || num_tarefas <= 1,
            sequencia@ == edd_ate(ts, alfa@, sorteios@, sequencia.len() as int),
        decreases num_tarefas - sequencia.len(),
    {
        let abertos = lista_de_abertos(inst, &marcados);
        proof {
            lemma_falta_um(sequencia@, num_tarefas as nat);
            let v = choose|v: usize| v < num_tarefas && !sequencia@.contains(v);
            assert(!marcados[v as int]);
            assert(abertos@.contains(v as int as usize));
            assert(marcados@ =~= marcas_de(sequencia@, ts.len()));
            lemma_lista_de_abertos_unica(
                ts,
                marcados@,
                abertos@,
                abertos_de(ts, sequencia@),
            );
        }
        let num_candidatos: usize = numero_de_candidatos(abertos.len(), alfa);
        let proximo: usize = abertos[sorteios[sequencia.len()] % num_candidatos];
        let ghost antes = sequencia@;
        sequencia.push(proximo);
        marcados[proximo] = true;
        proof {
            assert(!antes.contains(proximo));
            assert forall|a: int, b: int|
                0 <= a < sequencia.len() && 0 <= b < sequencia.len() && a != b implies sequencia[a]
                != sequencia[b] by {
                if a < antes.len() {
                    assert(antes.contains(antes[a]));
                }
                if b < antes.len() {
                    assert(antes.contains(antes[b]));
                }
            }
            assert forall|v: int| 0 <= v < num_tarefas implies (marcados[v]
                <==> sequencia@.contains(v as usize)) by {
                if antes.contains(v as usize) {
                    let k = antes.index_of(v as usize);
                    assert(sequencia[k] == v);
                }
                if v == proximo {
                    assert(sequencia[sequencia.len() - 1] == v);
                }
                if sequencia@.contains(v as usize) && v != proximo {
                    let k = sequencia@.index_of(v as usize);
                    assert(antes[k] == v);
                }
            }
        }
    }
    sequencia
}

/// Semi-greedy construction by due date alone, with draws from `rng`: see
/// [`earliest_due_date_com`]. The construction fails when the candidate list
/// comes out empty, which is when `alfa` is zero and there is more than one
/// task.
pub fn earliest_due_date(rng: &mut rand::XorShiftRng, inst: &Instancia, alfa: &Fracao) -> (r: Option<
    Sequencia,
>)
    ensures
        r is None <==> (alfa@.num == 0 && inst@.len() > 1),
        r matches Some(sequencia) ==> eh_permutacao(sequencia@, inst@.len()) && pode_ser_edd(
            inst@,
            alfa@,
            sequencia@,
        ),
{
    let n: usize = inst.num_tarefas();
    if n > 1 && numero_de_candidatos(n, alfa) == 0 {
        return None;
    }
    let mut sorteios: Vec<usize> = Vec::new();
    let mut k: usize = 0;
    while k < n
        invariant
            0 <= k <= n,
            sorteios.len() == k,
        decreases n - k,
    {
        sorteios.push(sorteia(rng));
        k = k + 1;
    }
    let sequencia = earliest_due_date_com(inst, alfa, &sorteios);
    assert(sequencia@ == edd_ate(inst@, alfa@, sorteios@, inst@.len() as int));
    Some(sequencia)
}

/// The semi-greedy construction after `k` steps with the given draws: the
/// sequence built so far, and the tasks that still wait. At each step the
/// draw, reduced modulo the size of the candidate list, picks one of the
/// first `ceil(alfa * waiting)` waiting tasks, and the task goes to its best
/// position in the sequence.
pub open spec fn semiguloso_ate(
    ts: Seq<DadosTarefa>,
    ordem: Seq<usize>,
    alfa: crate::fracao::Razao,
    sorteios: Seq<usize>,
    k: int,
) -> (Seq<usize>, Seq<usize>)
    decreases k,
{
    if k <= 0 {
        (Seq::empty(), ordem)
    } else {
        let (parcial, restantes) = semiguloso_ate(ts, ordem, alfa, sorteios, k - 1);
        let tidx = sorteios[k - 1] as int % alfa.teto_de(restantes.len()) as int;
        (insere_melhor(ts, parcial, restantes[tidx]), restantes.remove(tidx))
    }
}

/// `sol` is what the semi-greedy construction makes of the tasks `ts` with
/// the given draws, one for each task.
pub open spec fn eh_semiguloso(
    ts: Seq<DadosTarefa>,
    alfa: crate::fracao::Razao,
    sorteios: Seq<usize>,
    sol: DadosSolucao,
) -> bool {
    exists|ordem: Seq<usize>|
        {
            &&& #[trigger] eh_ordem_estavel(chaves_neh(ts), ordem)
            &&& sorteios.len() == ts.len()
            &&& sol.sequencia == semiguloso_ate(ts, ordem, alfa, sorteios, ts.len() as int).0
            &&& sol.resolve(ts)
        }
}

/// `sol` is what the semi-greedy construction makes of the tasks `ts` with
/// some draws.
pub open spec fn pode_ser_semiguloso(
    ts: Seq<DadosTarefa>,
    alfa: crate::fracao::Razao,
    sol: DadosSolucao,
) -> bool {
    exists|sorteios: Seq<usize>| #[trigger] eh_semiguloso(ts, alfa, sorteios, sol)
}

/// Semi-greedy construction by insertion with given draws. The tasks wait
/// ranked by due date, latest first. Each step takes a draw, picks with it
/// one of the first `ceil(alfa * waiting)` waiting tasks, and puts the task
/// into the sequence built so far at its best position.
pub fn neh_semiguloso_com(inst: &Instancia, alfa: &Fracao, sorteios: &Vec<usize>) -> (sol: Solucao)
    requires
        sorteios.len() == inst@.len(),
        alfa@.num > 0 || inst@.len() == 0,
    ensures
        eh_semiguloso(inst@, alfa@, sorteios@, sol@),
{
    let mut parcial: Sequencia = Vec::new();
    let n: usize = inst.num_tarefas();
    let mut seq: Sequencia = ordem_neh(inst);
    let ghost ordem = seq@;
    let ghost ts = inst@;
    proof {
        assert(parcial@ + seq@ =~= ordem);
        assert(parcial@ =~= Seq::<usize>::empty());
    }
    let mut k: usize = 0;
    while k < n
        invariant
            0 <= k <= n,
            ts == inst@,
            n == ts.len(),
            sorteios.len() == n,
            instancia_valida(ts),
            alfa@.num > 0 || n == 0,
            eh_permutacao(ordem, n as nat),
            parcial.len() == k,
            seq.len() == n - k,
            eh_rearranjo(parcial@ + seq@, ordem),
            (parcial@, seq@) == semiguloso_ate(ts, ordem, alfa@, sorteios@, k as int),
        decreases n - k,
    {
        let num_candidatos: usize = numero_de_candidatos(seq.len(), alfa);
        let tidx: usize = sorteios[k] % num_candidatos;
        let ghost antes = parcial@;
        let ghost restantes = seq@;
        proof {
            lemma_rearranjo_de_permutacao(ordem, antes + restantes, n as nat);
            lemma_partes_de_permutacao(antes, restantes, n as nat);
            assert(!antes.contains(restantes[tidx as int]));
        }
        let t: usize = seq.remove(tidx);
        parcial = melhor_insercao(inst, &parcial, t);
        proof {
            let p = choose|p: int| #[trigger]
                eh_melhor_posicao(ts, antes, t, p) && parcial@ == antes.insert(p, t);
            lemma_passa_tarefa(antes, restantes, tidx as int, p);
            lemma_rearranjo_transitivo(parcial@ + seq@, antes + restantes, ordem);
        }
        k = k + 1;
    }
    proof {
        assert(parcial@ + seq@ =~= parcial@);
        lemma_rearranjo_de_permutacao(ordem, parcial@, n as nat);
        assert(eh_ordem_estavel(chaves_neh(ts), ordem));
    }
    Solucao::new(inst, parcial)
}

/// Semi-greedy construction by insertion with draws from `rng`: see
/// [`neh_semiguloso_com`]. The construction fails when the candidate list
/// comes out empty, which is when `alfa` is zero and there are tasks.
pub fn neh_semiguloso(rng: &mut rand::XorShiftRng, inst: &Instancia, alfa: &Fracao) -> (r: Option<
    Solucao,
>)
    ensures
        r is None <==> (alfa@.num == 0 && inst@.len() > 0),
        r matches Some(sol) ==> sol@.resolve(inst@) && pode_ser_semiguloso(inst@, alfa@, sol@),
{
    let n: usize = inst.num_tarefas();
    if numero_de_candidatos(n, alfa) == 0 && n > 0 {
        return None;
    }
    let mut sorteios: Vec<usize> = Vec::new();
    let mut k: usize = 0;
    while k < n
        invariant
            0 <= k <= n,
            sorteios.len() == k,
        decreases n - k,
    {
        sorteios.push(sorteia(rng));
        k = k + 1;
    }
    let sol = neh_semiguloso_com(inst, alfa, &sorteios);
    assert(eh_semiguloso(inst@, alfa@, sorteios@, sol@));
    Some(sol)
}

/// A schedule built by [`neh_semiguloso`]; a construction that fails is
/// thrown away and started again.
pub fn construcao(rng: &mut rand::XorShiftRng, inst: &Instancia, alfa: &Fracao) -> (sol: Solucao)
    requires
        alfa@.num > 0 || inst@.len() == 0,
    ensures
        sol@.resolve(inst@),
        pode_ser_semiguloso(inst@, alfa@, sol@),
{
    loop
        invariant
            alfa@.num > 0 || inst@.len() == 0,
        decreases 0int,
    {
        match neh_semiguloso(rng, inst, alfa) {
            Some(sol) => {
                return sol;
            },
            None => {},
        }
    }
}

/// `sol` is what one iteration of the GRASP can give: the local search has
/// come down to it from a schedule of the semi-greedy construction, and it
/// has stood against a sample of `num` neighbours in each neighbourhood.
pub open spec fn eh_iteracao(
    ts: Seq<DadosTarefa>,
    alfa: crate::fracao::Razao,
    num: nat,
    sol: DadosSolucao,
) -> bool {
    &&& sol.resolve(ts)
    &&& resiste_a_todas(ts, num, sol)
    &&& exists|construida: DadosSolucao| #[trigger]
        pode_ser_semiguloso(ts, alfa, construida) && eh_descida(ts, construida, sol)
}

/// What holds of the outcome of a run of the GRASP on `ts` that is allowed
/// `prazo` nanoseconds and stops after `max_iter` iterations without
/// improvement. A run that did no iteration returns the empty solution at
/// cost [`INF`]; with no time allowed or no patience no iteration is done.
/// Any other run returns what one of its iterations gave: a schedule of the
/// tasks with its true cost, found no more than `max_iter` iterations before
/// the last. It was found after the first iteration only if it improved on
/// a schedule, so that some schedule costs more.
pub open spec fn eh_resultado(
    ts: Seq<DadosTarefa>,
    alfa: crate::fracao::Razao,
    prazo: nat,
    num_vizinhos: u32,
    max_iter: u64,
    r: (Solucao, u64, u64),
) -> bool {
    &&& if r.2 == 0 {
        r.0@ == (DadosSolucao { sequencia: Seq::empty(), fo: INF as int }) && r.1 == 0
    } else {
        eh_iteracao(ts, alfa, num_vizinhos as nat, r.0@) && r.1 < r.2
    }
    &&& r.2 - r.1 <= max_iter
    &&& r.1 > 0 ==> ha_mais_caro(ts, r.0@.fo)
    &&& max_iter == 0 ==> r.2 == 0
    &&& prazo == 0 ==> r.2 == 0
}

/// `resultados` is the run that `r` came of: what each iteration done gave.
/// The result costs no more than any of them; it is what the iteration that
/// found it gave, and strictly cheaper than what every earlier one gave.
pub open spec fn eh_corrida(
    ts: Seq<DadosTarefa>,
    alfa: crate::fracao::Razao,
    num: nat,
    resultados: Seq<DadosSolucao>,
    r: (Solucao, u64, u64),
) -> bool {
    &&& resultados.len() == r.2
    &&& forall|k: int|
        0 <= k < resultados.len() ==> eh_iteracao(ts, alfa, num, #[trigger] resultados[k])
    &&& forall|k: int| 0 <= k < resultados.len() ==> r.0@.fo <= (#[trigger] resultados[k]).fo
    &&& r.2 > 0 ==> {
        &&& r.1 < r.2
        &&& r.0@ == resultados[r.1 as int]
        &&& forall|k: int| 0 <= k < r.1 ==> (#[trigger] resultados[k]).fo > r.0@.fo
    }
}

/// `r` came of some run of the GRASP: see [`eh_corrida`].
pub open spec fn pode_ser_corrida(
    ts: Seq<DadosTarefa>,
    alfa: crate::fracao::Razao,
    num: nat,
    r: (Solucao, u64, u64),
) -> bool {
    exists|resultados: Seq<DadosSolucao>| #[trigger] eh_corrida(ts, alfa, num, resultados, r)
}

/// Runs the GRASP with the generator `rng`.
///
/// Each iteration builds a schedule with [`construcao`] at greediness `alfa`
/// and improves it with [`busca_local`], sampling `num_vizinhos` neighbours
/// per neighbourhood. The run stops when the best cost has not improved for
/// `max_iter` iterations or `timeout` has gone by.
///
/// Returns the best schedule found, the iteration that found it, and the
/// number of iterations done.
pub fn solve_com(
    rng: &mut rand::XorShiftRng,
    inst: &Instancia,
    alfa: &Fracao,
    timeout: Duration,
    num_vizinhos: u32,
    max_iter: u64,
) -> (r: (Solucao, u64, u64))
    requires
        alfa@.num > 0 || inst@.len() == 0,
    ensures
        eh_resultado(inst@, alfa@, nanos_de(timeout), num_vizinhos, max_iter, r),
        pode_ser_corrida(inst@, alfa@, num_vizinhos as nat, r),
{
    let t = Instant::now();
    let mut prog = Progresso::novo(Solucao::vazia());
    let ghost mut resultados: Seq<DadosSolucao> = Seq::empty();
    proof {
        use_type_invariant(inst);
    }
    while prog.ativo(max_iter) && dentro_do_prazo(&t, &timeout)
        invariant
            alfa@.num > 0 || inst@.len() == 0,
            instancia_valida(inst@),
            if prog@.it == 0 {
                prog@.melhor == (DadosSolucao { sequencia: Seq::empty(), fo: INF as int })
                    && prog@.it_melhor == 0
            } else {
                eh_iteracao(inst@, alfa@, num_vizinhos as nat, prog@.melhor) && prog@.it_melhor
                    < prog@.it
            },
            0 <= prog@.melhor.fo,
            prog@.it - prog@.it_melhor <= max_iter,
            prog@.it_melhor > 0 ==> ha_mais_caro(inst@, prog@.melhor.fo),
            max_iter == 0 ==> prog@.it == 0,
            prog@.it > 0 ==> nanos_de(timeout) > 0,
            resultados.len() == prog@.it,
            forall|k: int|
                0 <= k < resultados.len() ==> eh_iteracao(
                    inst@,
                    alfa@,
                    num_vizinhos as nat,
                    #[trigger] resultados[k],
                ),
            forall|k: int|
                0 <= k < resultados.len() ==> prog@.melhor.fo <= (#[trigger] resultados[k]).fo,
            prog@.it > 0 ==> {
                &&& prog@.melhor == resultados[prog@.it_melhor as int]
                &&& forall|k: int|
                    0 <= k < prog@.it_melhor ==> (#[trigger] resultados[k]).fo > prog@.melhor.fo
            },
        decreases prog@.melhor.fo, max_iter - (prog@.it - prog@.it_melhor),
    {
        let atual = construcao(rng, inst, alfa);
        let vizinho = busca_local(rng, inst, &atual, num_vizinhos);
        let ghost antes = prog@;
        let ghost passados = resultados;
        proof {
            lemma_custo_finito(inst@, vizinho@.sequencia);
            assert(pode_ser_semiguloso(inst@, alfa@, atual@) && eh_descida(
                inst@,
                atual@,
                vizinho@,
            ));
            assert(eh_iteracao(inst@, alfa@, num_vizinhos as nat, vizinho@));
            resultados = passados.push(vizinho@);
            assert forall|k: int| 0 <= k < resultados.len() implies eh_iteracao(
                inst@,
                alfa@,
                num_vizinhos as nat,
                #[trigger] resultados[k],
            ) by {
                if k < passados.len() {
                    assert(resultados[k] == passados[k]);
                }
            }
        }
        prog.registra(&vizinho);
        proof {
            if prog@.it_melhor > 0 && prog@.melhor != antes.melhor {
                assert(custo(inst@, antes.melhor.sequencia) > prog@.melhor.fo);
            }
            assert forall|k: int| 0 <= k < resultados.len() implies prog@.melhor.fo <= (
            #[trigger] resultados[k]).fo by {
                if k < passados.len() {
                    assert(resultados[k] == passados[k]);
                }
            }
            if prog@.melhor == antes.melhor && antes.it > 0 {
                assert(resultados[antes.it_melhor as int] == passados[antes.it_melhor as int]);
            }
            assert forall|k: int| 0 <= k < prog@.it_melhor implies (#[trigger] resultados[k]).fo
                > prog@.melhor.fo by {
                assert(resultados[k] == passados[k]);
            }
        }
    }
    let r = prog.resultado();
    proof {
        assert(eh_corrida(inst@, alfa@, num_vizinhos as nat, resultados, r));
    }
    r
}

/// Runs the GRASP with a generator of its own, freshly seeded.
///
/// See [`solve_com`] for what the run does and returns.
pub fn solve(inst: &Instancia, alfa: Fracao, timeout: Duration, num_vizinhos: u32, max_iter: u64) -> (r:
    (Solucao, u64, u64))
    requires
        alfa@.num > 0 || inst@.len() == 0,
    ensures
        eh_resultado(inst@, alfa@, nanos_de(timeout), num_vizinhos, max_iter, r),
        pode_ser_corrida(inst@, alfa@, num_vizinhos as nat, r),
{
    let mut rng = novo_gerador();
    solve_com(&mut rng, inst, &alfa, timeout, num_vizinhos, max_iter)
}

/// A GRASP set up for one instance: the instance and the parameters of the
/// run, each with a default that a setter overrides.
pub struct Grasp<'a> {
    inst: &'a Instancia,
    alfa: Fracao,
    timeout: u64,
    num_vizinhos: u32,
    max_iter: u64,
}

/// The mathematical content of a [`Grasp`].
pub struct ConfigGrasp {
    /// The tasks of the instance.
    pub tarefas: Seq<DadosTarefa>,
    /// Greediness: the share of the waiting tasks that are candidates.
    pub alfa: crate::fracao::Razao,
    /// Time limit, in seconds.
    pub timeout: u64,
    /// Neighbours sampled per neighbourhood.
    pub num_vizinhos: u32,
    /// Iterations without improvement after which the run stops.
    pub max_iter: u64,
}

impl<'a> View for Grasp<'a> {
    type V = ConfigGrasp;

    closed spec fn view(&self) -> ConfigGrasp {
        ConfigGrasp {
            tarefas: self.inst@,
            alfa: self.alfa@,
            timeout: self.timeout,
            num_vizinhos: self.num_vizinhos,
            max_iter: self.max_iter,
        }
    }
}

impl<'a> Grasp<'a> {
    /// The GRASP for `inst` with the default parameters: the first 35 in
    /// 100 waiting tasks are candidates, no time limit to speak of, 10
    /// neighbours per neighbourhood, 40 iterations of patience.
    pub fn new(inst: &'a Instancia) -> (grasp: Grasp<'a>)
        ensures
            grasp@ == (ConfigGrasp {
                tarefas: inst@,
                alfa: crate::fracao::Razao { num: 35, den: 100 },
                timeout: u64::MAX,
                num_vizinhos: 10,
                max_iter: 40,
            }),
    {
        Grasp {
            inst: inst,
            alfa: Fracao::new(35, 100).unwrap(),
            timeout: u64::MAX,
            num_vizinhos: 10,
            max_iter: 40,
        }
    }

    /// Sets the greediness.
    pub fn alfa(&mut self, alfa: Fracao) -> (grasp: &mut Grasp<'a>)
        ensures
            grasp@ == (ConfigGrasp { alfa: alfa@, ..old(self)@ }),
            *final(self) == *final(grasp),
    {
        self.alfa = alfa;
        self
    }

    /// Sets the time limit, in seconds.
    pub fn timeout(&mut self, timeout: u64) -> (grasp: &mut Grasp<'a>)
        ensures
            grasp@ == (ConfigGrasp { timeout: timeout, ..old(self)@ }),
            *final(self) == *final(grasp),
    {
        self.timeout = timeout;
        self
    }

    /// Sets the number of neighbours sampled per neighbourhood.
    pub fn num_vizinhos(&mut self, num_vizinhos: u32) -> (grasp: &mut Grasp<'a>)
        ensures
            grasp@ == (ConfigGrasp { num_vizinhos: num_vizinhos, ..old(self)@ }),
            *final(self) == *final(grasp),
    {
        self.num_vizinhos = num_vizinhos;
        self
    }

    /// Sets the number of iterations without improvement after which the run
    /// stops.
    pub fn max_iter(&mut self, max_iter: u64) -> (grasp: &mut Grasp<'a>)
        ensures
            grasp@ == (ConfigGrasp { max_iter: max_iter, ..old(self)@ }),
            *final(self) == *final(grasp),
    {
        self.max_iter = max_iter;
        self
    }

    /// Runs the GRASP as set up. See [`solve_com`].
    pub fn solve(&self) -> (r: (Solucao, u64, u64))
        requires
            self@.alfa.num > 0 || self@.tarefas.len() == 0,
        ensures
            eh_resultado(
                self@.tarefas,
                self@.alfa,
                (self@.timeout * 1_000_000_000) as nat,
                self@.num_vizinhos,
                self@.max_iter,
                r,
            ),
            pode_ser_corrida(self@.tarefas, self@.alfa, self@.num_vizinhos as nat, r),
    {
        solve(
            self.inst,
            self.alfa,
            Duration::from_secs(self.timeout),
            self.num_vizinhos,
            self.max_iter,
        )
    }
}

} // verus!
