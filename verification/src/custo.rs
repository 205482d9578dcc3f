//! The objective function as mathematics: completion times, the
//! earliness-plus-tardiness cost of a sequence, and the bound that keeps
//! every cost of a valid instance below the sentinel [`INF`].

use vstd::prelude::*;
use crate::permutacao::eh_permutacao;

verus! {

/// The cost of a sequence that is not a permutation of the instance's tasks.
///
/// Every valid instance keeps the cost of every permutation strictly below
/// it: see [`instancia_valida`] and [`lemma_custo_finito`].
pub const INF: i32 = 1_000_000_000;

/// What a task is to the objective function.
pub struct DadosTarefa {
    /// Processing time.
    pub duracao: int,
    /// Due date.
    pub entrega: int,
}

/// Total processing time of the tasks.
pub open spec fn soma_duracoes(ts: Seq<DadosTarefa>) -> int
    decreases ts.len(),
{
    if ts.len() == 0 {
        0
    } else {
        soma_duracoes(ts.drop_last()) + ts.last().duracao
    }
}

/// Absolute value.
pub open spec fn modulo(x: int) -> int {
    if x < 0 {
        -x
    } else {
        x
    }
}

/// The largest penalty task `i` can ever get: it completes no later than the
/// total processing time and no earlier than time zero.
pub open spec fn penalidade_maxima(ts: Seq<DadosTarefa>, i: int) -> int {
    soma_duracoes(ts) + modulo(ts[i].entrega)
}

/// The instances the library works on: no processing time is negative, and
/// the number of tasks times the largest penalty of any task stays below
/// [`INF`], so that no cost reaches the sentinel or leaves `i32`.
pub open spec fn instancia_valida(ts: Seq<DadosTarefa>) -> bool {
    &&& forall|i: int| 0 <= i < ts.len() ==> (#[trigger] ts[i]).duracao >= 0
    &&& forall|i: int| 0 <= i < ts.len() ==> ts.len() * #[trigger] penalidade_maxima(ts, i) < INF
}

/// Completion time of the `k`-th task of `s` (counting from one) when the
/// tasks run in the order of `s` from time zero; zero for `k == 0`.
pub open spec fn conclusao(ts: Seq<DadosTarefa>, s: Seq<usize>, k: int) -> int
    decreases k,
{
    if k <= 0 {
        0
    } else {
        conclusao(ts, s, k - 1) + ts[s[k - 1] as int].duracao
    }
}

/// Tardiness plus earliness of a task that completes at `fim` and is due at
/// `entrega`.
pub open spec fn penalidade(fim: int, entrega: int) -> int {
    let atraso = if fim - entrega > 0 { fim - entrega } else { 0 };
    let adiantamento = if entrega - fim > 0 { entrega - fim } else { 0 };
    adiantamento + atraso
}

/// Total penalty of the first `k` tasks of `s`.
pub open spec fn custo_ate(ts: Seq<DadosTarefa>, s: Seq<usize>, k: int) -> int
    decreases k,
{
    if k <= 0 {
        0
    } else {
        custo_ate(ts, s, k - 1) + penalidade(conclusao(ts, s, k), ts[s[k - 1] as int].entrega)
    }
}

/// Total earliness plus tardiness of the schedule `s`.
pub open spec fn custo(ts: Seq<DadosTarefa>, s: Seq<usize>) -> int {
    custo_ate(ts, s, s.len() as int)
}

/// The objective function: the cost of `s` when it is a permutation of the
/// tasks, and [`INF`] otherwise.
pub open spec fn avalia(ts: Seq<DadosTarefa>, s: Seq<usize>) -> int {
    if eh_permutacao(s, ts.len()) {
        custo(ts, s)
    } else {
        INF as int
    }
}

/// The first `k` ids of `s` are distinct ids of `n` tasks.
pub open spec fn prefixo_injetor(s: Seq<usize>, k: int, n: nat) -> bool {
    &&& 0 <= k <= s.len()
    &&& forall|j: int| 0 <= j < k ==> s[j] < n
    &&& forall|i: int, j: int| 0 <= i < j < k ==> s[i] != s[j]
}

/// Completion times only read the tasks that the prefix names.
proof fn lemma_conclusao_sem_ultima(ts: Seq<DadosTarefa>, s: Seq<usize>, k: int)
    requires
        ts.len() > 0,
        0 <= k <= s.len(),
        forall|j: int| 0 <= j < k ==> s[j] < ts.len() - 1,
    ensures
        conclusao(ts.drop_last(), s, k) == conclusao(ts, s, k),
    decreases k,
{
    if k > 0 {
        lemma_conclusao_sem_ultima(ts, s, k - 1);
    }
}

/// Taking one task out of a prefix takes its processing time out of the
/// completion time.
proof fn lemma_conclusao_remove(ts: Seq<DadosTarefa>, s: Seq<usize>, k: int, p: int)
    requires
        0 <= p < k <= s.len(),
    ensures
        conclusao(ts, s, k) == conclusao(ts, s.remove(p), k - 1) + ts[s[p] as int].duracao,
    decreases k,
{
    let r = s.remove(p);
    if k - 1 == p {
        lemma_conclusao_prefixo(ts, s, r, p);
    } else {
        lemma_conclusao_remove(ts, s, k - 1, p);
        assert(r[k - 2] == s[k - 1]);
    }
}

/// Completion times only read the prefix.
proof fn lemma_conclusao_prefixo(ts: Seq<DadosTarefa>, a: Seq<usize>, b: Seq<usize>, k: int)
    requires
        0 <= k <= a.len(),
        k <= b.len(),
        forall|j: int| 0 <= j < k ==> a[j] == b[j],
    ensures
        conclusao(ts, a, k) == conclusao(ts, b, k),
    decreases k,
{
    if k > 0 {
        lemma_conclusao_prefixo(ts, a, b, k - 1);
    }
}

/// No prefix of distinct tasks takes longer than all the tasks together.
pub proof fn lemma_conclusao_limitada(ts: Seq<DadosTarefa>, s: Seq<usize>, k: int)
    requires
        forall|i: int| 0 <= i < ts.len() ==> (#[trigger] ts[i]).duracao >= 0,
        prefixo_injetor(s, k, ts.len()),
    ensures
        0 <= conclusao(ts, s, k) <= soma_duracoes(ts),
    decreases ts.len(),
{
    if ts.len() == 0 {
        if k > 0 {
            assert(s[0] < 0);
        }
        assert(conclusao(ts, s, 0) == 0);
    } else {
        let resto = ts.drop_last();
        let maior = ts.len() - 1;
        assert(ts.last().duracao >= 0);
        assert forall|i: int| 0 <= i < resto.len() implies (#[trigger] resto[i]).duracao >= 0 by {
            assert(resto[i] == ts[i]);
        }
        if exists|p: int| 0 <= p < k && s[p] == maior {
            let p = choose|p: int| 0 <= p < k && s[p] == maior;
            let r = s.remove(p);
            assert forall|j: int| 0 <= j < k - 1 implies r[j] < resto.len() by {
                if j < p {
                    assert(r[j] == s[j]);
                } else {
                    assert(r[j] == s[j + 1]);
                }
            }
            assert forall|i: int, j: int| 0 <= i < j < k - 1 implies r[i] != r[j] by {
                let ii = if i < p { i } else { i + 1 };
                let jj = if j < p { j } else { j + 1 };
                assert(r[i] == s[ii]);
                assert(r[j] == s[jj]);
            }
            lemma_conclusao_limitada(resto, r, k - 1);
            lemma_conclusao_sem_ultima(ts, r, k - 1);
            lemma_conclusao_remove(ts, s, k, p);
        } else {
            lemma_conclusao_limitada(resto, s, k);
            lemma_conclusao_sem_ultima(ts, s, k);
        }
    }
}

/// The penalty of each scheduled task stays under its largest penalty.
pub proof fn lemma_penalidade_limitada(ts: Seq<DadosTarefa>, s: Seq<usize>, k: int)
    requires
        forall|i: int| 0 <= i < ts.len() ==> (#[trigger] ts[i]).duracao >= 0,
        prefixo_injetor(s, k, ts.len()),
        k > 0,
    ensures
        0 <= penalidade(conclusao(ts, s, k), ts[s[k - 1] as int].entrega) <= penalidade_maxima(
            ts,
            s[k - 1] as int,
        ),
{
    lemma_conclusao_limitada(ts, s, k);
}

/// The cost of a prefix of distinct tasks of a valid instance grows by less
/// than `INF / n` per task.
pub proof fn lemma_custo_limitado(ts: Seq<DadosTarefa>, s: Seq<usize>, k: int)
    requires
        instancia_valida(ts),
        prefixo_injetor(s, k, ts.len()),
    ensures
        0 <= custo_ate(ts, s, k),
        ts.len() * custo_ate(ts, s, k) <= k * (INF - 1),
        k > 0 ==> custo_ate(ts, s, k) < INF,
    decreases k,
{
    let n = ts.len() as int;
    if k > 0 {
        lemma_custo_limitado(ts, s, k - 1);
        lemma_penalidade_limitada(ts, s, k);
        let pen = penalidade(conclusao(ts, s, k), ts[s[k - 1] as int].entrega);
        let maxima = penalidade_maxima(ts, s[k - 1] as int);
        let antes = custo_ate(ts, s, k - 1);
        assert(n * maxima <= INF - 1);
        assert(n * pen <= n * maxima) by (nonlinear_arith)
            requires
                0 <= n,
                pen <= maxima,
        ;
        assert(n * (antes + pen) == n * antes + n * pen) by (nonlinear_arith);
        assert((k - 1) * (INF - 1) + (INF - 1) == k * (INF - 1)) by (nonlinear_arith);
        lemma_sem_espaco_no_prefixo(s, k, ts.len());
        let c = custo_ate(ts, s, k);
        assert(c < INF) by (nonlinear_arith)
            requires
                n * c <= k * (INF - 1),
                0 < k <= n,
                0 <= c,
        ;
    } else {
        assert(n * 0 == 0);
    }
}

/// A prefix of distinct ids below `n` has at most `n` of them.
proof fn lemma_sem_espaco_no_prefixo(s: Seq<usize>, k: int, n: nat)
    requires
        prefixo_injetor(s, k, n),
    ensures
        k <= n,
{
    let p = s.take(k);
    crate::permutacao::lemma_sem_espaco(p, n);
}

/// A permutation is a prefix of distinct tasks all the way.
pub proof fn lemma_permutacao_prefixo(s: Seq<usize>, n: nat, k: int)
    requires
        eh_permutacao(s, n),
        0 <= k <= n,
    ensures
        prefixo_injetor(s, k, n),
{
}

/// On a valid instance the cost of every permutation of the tasks is finite:
/// it is not negative and lies strictly below [`INF`].
pub proof fn lemma_custo_finito(ts: Seq<DadosTarefa>, s: Seq<usize>)
    requires
        instancia_valida(ts),
        eh_permutacao(s, ts.len()),
    ensures
        0 <= custo(ts, s) < INF,
        avalia(ts, s) == custo(ts, s),
{
    lemma_permutacao_prefixo(s, ts.len(), s.len() as int);
    lemma_custo_limitado(ts, s, s.len() as int);
}

/// Whatever the sequence, the objective function of a valid instance lies
/// between zero and [`INF`], and reaches [`INF`] only off the permutations.
pub proof fn lemma_avalia_limites(ts: Seq<DadosTarefa>, s: Seq<usize>)
    requires
        instancia_valida(ts),
    ensures
        0 <= avalia(ts, s) <= INF,
        avalia(ts, s) == INF <==> !eh_permutacao(s, ts.len()),
{
    if eh_permutacao(s, ts.len()) {
        lemma_custo_finito(ts, s);
    }
}

/// Some schedule of the tasks costs more than `fo`.
pub open spec fn ha_mais_caro(ts: Seq<DadosTarefa>, fo: int) -> bool {
    exists|s: Seq<usize>| eh_permutacao(s, ts.len()) && #[trigger] custo(ts, s) > fo
}

} // verus!
