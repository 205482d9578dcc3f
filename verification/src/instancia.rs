//! Problem instances and candidate solutions.

use vstd::prelude::*;
use std::time::{Duration, Instant};
use crate::relogio::{dentro_do_prazo, nanos_de};
use crate::sorteio::{novo_gerador, sorteia};
use crate::custo::{
    avalia, conclusao, custo, custo_ate, instancia_valida, lemma_avalia_limites,
    lemma_conclusao_limitada, lemma_custo_limitado, lemma_permutacao_prefixo, modulo, penalidade,
    penalidade_maxima, prefixo_injetor, soma_duracoes, DadosTarefa,
};
use crate::ordenacao::{eh_ordem_estavel, inteiros, ordem_estavel};
use crate::permutacao::{
    desloca, desloca_em, eh_permutacao, eh_rearranjo, lemma_desloca_rearranjo,
    lemma_permutacao_cobre, lemma_permutacao_por_contagem, lemma_rearranjo_de_permutacao,
};

pub use crate::custo::INF;

verus! {

/// A task is named by its position in the instance.
pub type IdTarefa = usize;

/// A processing order: task ids, first to last.
pub type Sequencia = Vec<IdTarefa>;

/// A task: how long it takes and when it is due.
pub struct Tarefa {
    duracao: i32,
    entrega: i32,
}

impl View for Tarefa {
    type V = DadosTarefa;

    closed spec fn view(&self) -> DadosTarefa {
        DadosTarefa { duracao: self.duracao as int, entrega: self.entrega as int }
    }
}

impl Tarefa {
    /// Processing time.
    pub fn duracao(&self) -> (r: i32)
        ensures
            r == self@.duracao,
    {
        self.duracao
    }

    /// Due date.
    pub fn entrega(&self) -> (r: i32)
        ensures
            r == self@.entrega,
    {
        self.entrega
    }

    /// The task with the given processing time and due date.
    pub fn new(duracao: i32, entrega: i32) -> (t: Tarefa)
        ensures
            t@ == (DadosTarefa { duracao: duracao as int, entrega: entrega as int }),
    {
        Tarefa { duracao: duracao, entrega: entrega }
    }
}

/// The tasks of a list, as the objective function sees them.
pub open spec fn dados_de(ts: Seq<Tarefa>) -> Seq<DadosTarefa> {
    ts.map_values(|t: Tarefa| t@)
}

/// A problem instance: the tasks to be scheduled, indexed by id.
///
/// Every instance is valid in the sense of [`instancia_valida`]: the
/// constructor turns down any other list of tasks.
pub struct Instancia(Vec<Tarefa>);

impl View for Instancia {
    type V = Seq<DadosTarefa>;

    closed spec fn view(&self) -> Seq<DadosTarefa> {
        dados_de(self.0@)
    }
}

impl Instancia {
    /// Every instance is valid.
    #[verifier::type_invariant]
    pub open spec fn inv(self) -> bool {
        instancia_valida(self@)
    }

    /// Number of tasks.
    pub fn num_tarefas(&self) -> (n: usize)
        ensures
            n == self@.len(),
            instancia_valida(self@),
    {
        proof {
            use_type_invariant(self);
        }
        self.0.len()
    }

    /// The task with the given id.
    pub fn tarefa(&self, id: IdTarefa) -> (t: &Tarefa)
        requires
            id < self@.len(),
        ensures
            t@ == self@[id as int],
            t@.duracao >= 0,
    {
        proof {
            use_type_invariant(self);
        }
        &self.0[id]
    }

    /// The instance without tasks.
    pub fn toy() -> (inst: Instancia)
        ensures
            inst@ == Seq::<DadosTarefa>::empty(),
    {
        let inst = Instancia(Vec::new());
        assert(inst@ =~= Seq::<DadosTarefa>::empty());
        inst
    }

    /// The instance made of the given tasks, in their order, or nothing when
    /// they do not form a valid instance.
    pub fn new(tarefas: Vec<Tarefa>) -> (r: Option<Instancia>)
        ensures
            r is Some <==> instancia_valida(dados_de(tarefas@)),
            r matches Some(inst) ==> inst@ == dados_de(tarefas@),
    {
        let ghost ts = dados_de(tarefas@);
        let n: usize = tarefas.len();
        let mut total: i128 = 0;
        let mut i: usize = 0;
        while i < n
            invariant
                n == tarefas.len(),
                ts == dados_de(tarefas@),
                0 <= i <= n,
                total == soma_duracoes(ts.take(i as int)),
                0 <= total <= i * 0x8000_0000,
                forall|j: int| 0 <= j < i ==> (#[trigger] ts[j]).duracao >= 0,
            decreases n - i,
        {
            let d: i32 = tarefas[i].duracao();
            if d < 0 {
                assert(ts[i as int].duracao < 0);
                return None;
            }
            proof {
                assert(ts.take(i + 1).drop_last() =~= ts.take(i as int));
                assert(ts.take(i + 1).last() == ts[i as int]);
            }
            total = total + d as i128;
            i = i + 1;
        }
        assert(ts.take(n as int) =~= ts);
        if n > 0 && total >= INF as i128 {
            proof {
                let p = penalidade_maxima(ts, 0);
                assert(p >= INF);
                assert(ts.len() * p >= INF) by (nonlinear_arith)
                    requires
                        ts.len() >= 1,
                        p >= INF,
                ;
            }
            return None;
        }
        let mut i: usize = 0;
        while i < n
            invariant
                n == tarefas.len(),
                ts == dados_de(tarefas@),
                0 <= i <= n,
                total == soma_duracoes(ts),
                n > 0 ==> 0 <= total < INF,
                forall|j: int| 0 <= j < n ==> (#[trigger] ts[j]).duracao >= 0,
                forall|j: int| 0 <= j < i ==> ts.len() * #[trigger] penalidade_maxima(ts, j) < INF,
            decreases n - i,
        {
            let e: i128 = tarefas[i].entrega() as i128;
            let m: i128 = if e < 0 { -e } else { e };
            let p: i128 = total + m;
            assert(p == penalidade_maxima(ts, i as int));
            assert(0 <= (n as int) * p <= 0x1_0000_0000_0000_0000 * 0x1_0000_0000)
                by (nonlinear_arith)
                requires
                    0 <= n <= 0xFFFF_FFFF_FFFF_FFFF,
                    0 <= p <= 0x1_0000_0000,
            ;
            if (n as i128) * p >= INF as i128 {
                return None;
            }
            i = i + 1;
        }
        let inst = Instancia(tarefas);
        Some(inst)
    }
}

/// A candidate solution: a sequence together with its cost.
///
/// The cost is computed once, when the solution is made, and never again.
pub struct Solucao {
    sequencia: Sequencia,
    fo: i32,
}

/// The mathematical content of a [`Solucao`].
pub struct DadosSolucao {
    pub sequencia: Seq<usize>,
    pub fo: int,
}

impl DadosSolucao {
    /// The solution is a schedule of the tasks `ts` and carries its true cost.
    pub open spec fn resolve(self, ts: Seq<DadosTarefa>) -> bool {
        &&& eh_permutacao(self.sequencia, ts.len())
        &&& self.fo == custo(ts, self.sequencia)
    }

    /// The cost is what the objective function of `ts` gives the sequence.
    pub open spec fn avaliada(self, ts: Seq<DadosTarefa>) -> bool {
        self.fo == avalia(ts, self.sequencia)
    }
}

impl View for Solucao {
    type V = DadosSolucao;

    closed spec fn view(&self) -> DadosSolucao {
        DadosSolucao { sequencia: self.sequencia@, fo: self.fo as int }
    }
}

impl Clone for Solucao {
    fn clone(&self) -> (r: Solucao)
        ensures
            r@ == self@,
    {
        proof {
            use_type_invariant(self);
        }
        let sequencia = self.sequencia.clone();
        assert(sequencia@ =~= self.sequencia@);
        Solucao { sequencia, fo: self.fo }
    }
}

/// How often each id below the length occurs in the sequence.
pub fn frequencias(sequencia: &Sequencia) -> (freq: Vec<u64>)
    ensures
        freq.len() == sequencia.len(),
        forall|v: usize|
            v < sequencia.len() ==> freq[v as int] == #[trigger] sequencia@.to_multiset().count(v),
{
    let n: usize = sequencia.len();
    let mut freq: Vec<u64> = Vec::new();
    let mut i: usize = 0;
    while i < n
        invariant
            0 <= i <= n,
            freq.len() == i,
            forall|v: int| 0 <= v < i ==> freq[v] == 0,
        decreases n - i,
    {
        freq.push(0);
        i = i + 1;
    }
    let mut i: usize = 0;
    assert(sequencia@.take(0).to_multiset() =~= vstd::multiset::Multiset::<usize>::empty()) by {
        broadcast use vstd::multiset::group_multiset_axioms;

        sequencia@.take(0).to_multiset_ensures();
    }
    while i < n
        invariant
            n == sequencia.len(),
            0 <= i <= n,
            freq.len() == n,
            forall|v: usize|
                v < n ==> freq[v as int] == #[trigger] sequencia@.take(i as int).to_multiset().count(
                    v,
                ),
            forall|v: usize| v < n ==> freq[v as int] <= i,
        decreases n - i,
    {
        let vert: usize = sequencia[i];
        let ghost antes = sequencia@.take(i as int);
        proof {
            broadcast use vstd::multiset::group_multiset_axioms;

            assert(sequencia@.take(i + 1) =~= antes.push(vert));
            vstd::seq_lib::to_multiset_build(antes, vert);
        }
        if vert < n {
            let f: u64 = freq[vert];
            freq[vert] = f + 1;
        }
        i = i + 1;
    }
    assert(sequencia@.take(n as int) =~= sequencia@);
    freq
}

/// Whether the sequence schedules each of `num_tarefas` tasks exactly once.
pub fn is_factivel(s: &Sequencia, num_tarefas: usize) -> (r: bool)
    ensures
        r == eh_permutacao(s@, num_tarefas as nat),
{
    if s.len() != num_tarefas {
        return false;
    }
    let freq = frequencias(s);
    let mut v: usize = 0;
    while v < num_tarefas
        invariant
            0 <= v <= num_tarefas,
            freq.len() == num_tarefas,
            s.len() == num_tarefas,
            forall|w: usize|
                w < num_tarefas ==> freq[w as int] == #[trigger] s@.to_multiset().count(w),
            forall|w: usize| w < v ==> #[trigger] s@.to_multiset().count(w) == 1,
        decreases num_tarefas - v,
    {
        if freq[v] != 1 {
            proof {
                assert(s@.to_multiset().count(v) != 1);
                lemma_permutacao_por_contagem(s@, num_tarefas as nat);
            }
            return false;
        }
        v = v + 1;
    }
    proof {
        lemma_permutacao_por_contagem(s@, num_tarefas as nat);
    }
    true
}

impl Solucao {
    #[verifier::type_invariant]
    pub closed spec fn inv(self) -> bool {
        0 <= self.fo <= INF
    }

    /// The objective function: total earliness plus tardiness of the
    /// sequence, or [`INF`] when it is not a permutation of the tasks.
    pub fn calcula_fo(inst: &Instancia, sequencia: &Sequencia) -> (fo: i32)
        ensures
            fo == avalia(inst@, sequencia@),
            eh_permutacao(sequencia@, inst@.len()) ==> fo == custo(inst@, sequencia@) && 0 <= fo
                < INF,
            !eh_permutacao(sequencia@, inst@.len()) ==> fo == INF,
    {
        let n: usize = inst.num_tarefas();
        proof {
            lemma_avalia_limites(inst@, sequencia@);
        }
        if !is_factivel(sequencia, n) {
            return INF;
        }
        let tempo_finalizacao = Solucao::executar_simulacao(inst, sequencia);
        let mut total: i32 = 0;
        let mut k: usize = 0;
        while k < n
            invariant
                n == inst@.len(),
                instancia_valida(inst@),
                eh_permutacao(sequencia@, n as nat),
                0 <= k <= n,
                tempo_finalizacao.len() == n,
                forall|j: int|
                    0 <= j < n ==> tempo_finalizacao[sequencia[j] as int] == conclusao(
                        inst@,
                        sequencia@,
                        j + 1,
                    ),
                total == custo_ate(inst@, sequencia@, k as int),
                0 <= total < INF,
            decreases n - k,
        {
            let id: usize = sequencia[k];
            let t = inst.tarefa(id);
            let fim: i32 = tempo_finalizacao[id];
            let entrega: i32 = t.entrega();
            proof {
                lemma_permutacao_prefixo(sequencia@, n as nat, k + 1);
                lemma_conclusao_limitada(inst@, sequencia@, k + 1);
                lemma_custo_limitado(inst@, sequencia@, k + 1);
                lemma_entrega_limitada(inst@, id as int);
                assert(fim == conclusao(inst@, sequencia@, k + 1));
            }
            let atraso: i32 = if fim - entrega > 0 { fim - entrega } else { 0 };
            let adiantamento: i32 = if entrega - fim > 0 { entrega - fim } else { 0 };
            assert(adiantamento + atraso == penalidade(fim as int, entrega as int));
            total = total + (adiantamento + atraso);
            k = k + 1;
        }
        total
    }

    /// Completion time of every task when the tasks run in the order of the
    /// sequence from time zero, indexed by task id.
    pub fn executar_simulacao(inst: &Instancia, sequencia: &Sequencia) -> (finalizacao: Vec<i32>)
        requires
            eh_permutacao(sequencia@, inst@.len()),
        ensures
            finalizacao.len() == inst@.len(),
            forall|k: int|
                0 <= k < sequencia.len() ==> finalizacao[sequencia[k] as int] == conclusao(
                    inst@,
                    sequencia@,
                    k + 1,
                ),
    {
        let n: usize = inst.num_tarefas();
        let mut finalizacao: Vec<i32> = Vec::new();
        let mut i: usize = 0;
        while i < n
            invariant
                0 <= i <= n,
                finalizacao.len() == i,
            decreases n - i,
        {
            finalizacao.push(0);
            i = i + 1;
        }
        let mut t_atual: i32 = 0;
        let mut k: usize = 0;
        while k < n
            invariant
                n == inst@.len(),
                instancia_valida(inst@),
                eh_permutacao(sequencia@, n as nat),
                0 <= k <= n,
                finalizacao.len() == n,
                t_atual == conclusao(inst@, sequencia@, k as int),
                forall|j: int|
                    0 <= j < k ==> finalizacao[sequencia[j] as int] == conclusao(
                        inst@,
                        sequencia@,
                        j + 1,
                    ),
            decreases n - k,
        {
            let id: usize = sequencia[k];
            proof {
                lemma_permutacao_prefixo(sequencia@, n as nat, k + 1);
                lemma_conclusao_limitada(inst@, sequencia@, k + 1);
                lemma_soma_limitada(inst@);
            }
            t_atual = t_atual + inst.tarefa(id).duracao();
            finalizacao[id] = t_atual;
            k = k + 1;
        }
        finalizacao
    }

    /// The solution that schedules `sequencia` on `inst`, with its cost.
    pub fn new(inst: &Instancia, sequencia: Sequencia) -> (s: Solucao)
        ensures
            s@.sequencia == sequencia@,
            s@.fo == avalia(inst@, sequencia@),
            eh_permutacao(sequencia@, inst@.len()) ==> s@.resolve(inst@) && s@.fo < INF,
            !eh_permutacao(sequencia@, inst@.len()) ==> s@.fo == INF,
    {
        let fo = Solucao::calcula_fo(inst, &sequencia);
        Solucao { fo: fo, sequencia: sequencia }
    }

    /// The solution that schedules nothing and costs [`INF`].
    pub fn vazia() -> (s: Solucao)
        ensures
            s@.sequencia == Seq::<usize>::empty(),
            s@.fo == INF,
    {
        Solucao { fo: INF, sequencia: Vec::new() }
    }

    /// The processing order.
    pub fn sequencia(&self) -> (r: &Sequencia)
        ensures
            r@ == self@.sequencia,
    {
        &self.sequencia
    }

    /// The cost computed when the solution was made.
    pub fn fo(&self) -> (r: i32)
        ensures
            r == self@.fo,
            0 <= r <= INF,
    {
        proof {
            use_type_invariant(self);
        }
        self.fo
    }
}

/// In a valid instance with tasks the total processing time stays below
/// [`INF`].
pub proof fn lemma_soma_limitada(ts: Seq<DadosTarefa>)
    requires
        instancia_valida(ts),
        ts.len() > 0,
    ensures
        soma_duracoes(ts) < INF,
{
    let p = penalidade_maxima(ts, 0);
    assert(ts.len() * p < INF);
    assert(p < INF) by (nonlinear_arith)
        requires
            ts.len() * p < INF,
            ts.len() >= 1,
    ;
}

/// In a valid instance every due date lies strictly between `-INF` and
/// [`INF`].
pub proof fn lemma_entrega_limitada(ts: Seq<DadosTarefa>, i: int)
    requires
        instancia_valida(ts),
        0 <= i < ts.len(),
    ensures
        soma_duracoes(ts) + modulo(ts[i].entrega) < INF,
{
    let p = penalidade_maxima(ts, i);
    assert(ts.len() * p < INF);
    assert(p < INF) by (nonlinear_arith)
        requires
            ts.len() * p < INF,
            ts.len() >= 1,
    ;
}

/// `s` is a partial schedule of `n` tasks: distinct ids below `n`, as many
/// as have been placed.
pub open spec fn eh_parcial(s: Seq<usize>, n: nat) -> bool {
    &&& forall|i: int| 0 <= i < s.len() ==> s[i] < n
    &&& s.no_duplicates()
}

/// A partial schedule is a prefix of distinct tasks all the way, and holds
/// no more tasks than there are.
pub proof fn lemma_parcial_prefixo(s: Seq<usize>, n: nat, k: int)
    requires
        eh_parcial(s, n),
        0 <= k <= s.len(),
    ensures
        prefixo_injetor(s, k, n),
        s.len() <= n,
{
    crate::permutacao::lemma_sem_espaco(s, n);
}

/// Putting a task that is not yet placed into a partial schedule gives a
/// partial schedule.
pub proof fn lemma_parcial_com_mais_uma(s: Seq<usize>, n: nat, t: usize, p: int)
    requires
        eh_parcial(s, n),
        t < n,
        !s.contains(t),
        0 <= p <= s.len(),
    ensures
        eh_parcial(s.insert(p, t), n),
{
    let r = s.insert(p, t);
    assert forall|i: int| 0 <= i < r.len() implies r[i] < n by {
        if i < p {
            assert(r[i] == s[i]);
        } else if i > p {
            assert(r[i] == s[i - 1]);
        }
    }
    assert forall|i: int, j: int| 0 <= i < r.len() && 0 <= j < r.len() && i != j implies r[i]
        != r[j] by {
        let ii = if i < p { i } else { i - 1 };
        let jj = if j < p { j } else { j - 1 };
        if i != p {
            assert(r[i] == s[ii]);
            assert(s.contains(s[ii]));
        }
        if j != p {
            assert(r[j] == s[jj]);
            assert(s.contains(s[jj]));
        }
    }
}

/// The parts of a permutation that is cut in two are partial schedules, and
/// no task of the second part stands in the first.
pub proof fn lemma_partes_de_permutacao(a: Seq<usize>, b: Seq<usize>, n: nat)
    requires
        eh_permutacao(a + b, n),
    ensures
        eh_parcial(a, n),
        forall|i: int| 0 <= i < b.len() ==> b[i] < n && !a.contains(#[trigger] b[i]),
{
    let c = a + b;
    assert forall|i: int| 0 <= i < a.len() implies a[i] < n by {
        assert(c[i] == a[i]);
    }
    assert forall|i: int, j: int| 0 <= i < a.len() && 0 <= j < a.len() && i != j implies a[i]
        != a[j] by {
        assert(c[i] == a[i] && c[j] == a[j]);
    }
    assert forall|i: int| 0 <= i < b.len() implies b[i] < n && !a.contains(#[trigger] b[i]) by {
        assert(c[a.len() + i] == b[i]);
        if a.contains(b[i]) {
            let k = a.index_of(b[i]);
            assert(c[k] == a[k]);
        }
    }
}

/// The cost of a partial schedule: the earliness plus tardiness of the tasks
/// placed so far, run back to back from time zero.
pub fn custo_parcial(inst: &Instancia, sequencia: &Sequencia) -> (fo: i32)
    requires
        eh_parcial(sequencia@, inst@.len()),
    ensures
        fo == custo(inst@, sequencia@),
        0 <= fo < INF,
{
    let ghost ts = inst@;
    let ghost s = sequencia@;
    proof {
        use_type_invariant(inst);
        lemma_parcial_prefixo(s, ts.len(), 0);
    }
    let m: usize = sequencia.len();
    let mut t_atual: i32 = 0;
    let mut total: i32 = 0;
    let mut k: usize = 0;
    while k < m
        invariant
            ts == inst@,
            s == sequencia@,
            m == s.len(),
            m <= ts.len(),
            instancia_valida(ts),
            eh_parcial(s, ts.len()),
            0 <= k <= m,
            t_atual == conclusao(ts, s, k as int),
            total == custo_ate(ts, s, k as int),
            0 <= total < INF,
        decreases m - k,
    {
        let id: usize = sequencia[k];
        let t = inst.tarefa(id);
        proof {
            lemma_parcial_prefixo(s, ts.len(), k + 1);
            lemma_conclusao_limitada(ts, s, k + 1);
            lemma_custo_limitado(ts, s, k + 1);
            lemma_entrega_limitada(ts, id as int);
            lemma_soma_limitada(ts);
        }
        t_atual = t_atual + t.duracao();
        let entrega: i32 = t.entrega();
        let atraso: i32 = if t_atual - entrega > 0 { t_atual - entrega } else { 0 };
        let adiantamento: i32 = if entrega - t_atual > 0 { entrega - t_atual } else { 0 };
        assert(adiantamento + atraso == penalidade(t_atual as int, entrega as int));
        total = total + (adiantamento + atraso);
        k = k + 1;
    }
    total
}

/// What the tasks placed so far cost when task `t` is put into `s` at
/// position `p`: the earliness plus tardiness of the partial schedule.
pub open spec fn custo_insercao(ts: Seq<DadosTarefa>, s: Seq<usize>, t: usize, p: int) -> int {
    custo(ts, s.insert(p, t))
}

/// Among the positions up to `m`, `p` is the best to put task `t` into `s`:
/// none of them is cheaper, and every earlier one is dearer.
pub open spec fn eh_melhor_posicao_ate(
    ts: Seq<DadosTarefa>,
    s: Seq<usize>,
    t: usize,
    m: int,
    p: int,
) -> bool {
    &&& 0 <= p <= m
    &&& forall|q: int|
        0 <= q <= m ==> #[trigger] custo_insercao(ts, s, t, q) >= custo_insercao(ts, s, t, p)
    &&& forall|q: int|
        0 <= q < p ==> #[trigger] custo_insercao(ts, s, t, q) > custo_insercao(ts, s, t, p)
}

/// `p` is the best position to put task `t` into `s`: no position is
/// cheaper, and every earlier position is dearer.
pub open spec fn eh_melhor_posicao(ts: Seq<DadosTarefa>, s: Seq<usize>, t: usize, p: int) -> bool {
    eh_melhor_posicao_ate(ts, s, t, s.len() as int, p)
}

/// `s` with task `t` put in at the best position.
pub open spec fn insere_melhor(ts: Seq<DadosTarefa>, s: Seq<usize>, t: usize) -> Seq<usize> {
    s.insert(choose|p: int| eh_melhor_posicao(ts, s, t, p), t)
}

/// Among the positions up to `m` one is the best.
pub proof fn lemma_melhor_posicao_ate(ts: Seq<DadosTarefa>, s: Seq<usize>, t: usize, m: int) -> (p:
    int)
    requires
        0 <= m,
    ensures
        eh_melhor_posicao_ate(ts, s, t, m, p),
    decreases m,
{
    if m == 0 {
        0
    } else {
        let antes = lemma_melhor_posicao_ate(ts, s, t, m - 1);
        if custo_insercao(ts, s, t, m) < custo_insercao(ts, s, t, antes) {
            m
        } else {
            antes
        }
    }
}

/// Every task has a best position in every sequence: `insere_melhor` puts
/// the task at a position that no other beats, the first of these.
pub proof fn lemma_melhor_posicao_existe(ts: Seq<DadosTarefa>, s: Seq<usize>, t: usize)
    ensures
        exists|p: int| eh_melhor_posicao(ts, s, t, p),
        eh_melhor_posicao(ts, s, t, choose|p: int| eh_melhor_posicao(ts, s, t, p)),
        forall|q: int|
            0 <= q <= s.len() ==> #[trigger] custo_insercao(ts, s, t, q) >= custo(
                ts,
                insere_melhor(ts, s, t),
            ),
{
    let p = lemma_melhor_posicao_ate(ts, s, t, s.len() as int);
    assert(eh_melhor_posicao(ts, s, t, p));
    let c = choose|p: int| eh_melhor_posicao(ts, s, t, p);
    assert(custo(ts, insere_melhor(ts, s, t)) == custo_insercao(ts, s, t, c));
}

/// There is one best position only.
pub proof fn lemma_melhor_posicao_unica(
    ts: Seq<DadosTarefa>,
    s: Seq<usize>,
    t: usize,
    p: int,
    q: int,
)
    requires
        eh_melhor_posicao(ts, s, t, p),
        eh_melhor_posicao(ts, s, t, q),
    ensures
        p == q,
{
    if p < q {
        assert(custo_insercao(ts, s, t, p) > custo_insercao(ts, s, t, q));
        assert(custo_insercao(ts, s, t, p) >= custo_insercao(ts, s, t, q));
        assert(custo_insercao(ts, s, t, q) >= custo_insercao(ts, s, t, p));
    } else if q < p {
        assert(custo_insercao(ts, s, t, q) > custo_insercao(ts, s, t, p));
        assert(custo_insercao(ts, s, t, p) >= custo_insercao(ts, s, t, q));
    }
}

/// Moving a task from the tasks that wait into the partial sequence keeps
/// the tasks of both together what they were.
pub proof fn lemma_passa_tarefa(parcial: Seq<usize>, restantes: Seq<usize>, idx: int, p: int)
    requires
        0 <= idx < restantes.len(),
        0 <= p <= parcial.len(),
    ensures
        eh_rearranjo(
            parcial + restantes,
            parcial.insert(p, restantes[idx]) + restantes.remove(idx),
        ),
{
    broadcast use vstd::multiset::group_multiset_axioms;

    let t = restantes[idx];
    vstd::seq_lib::lemma_multiset_commutative(parcial, restantes);
    vstd::seq_lib::lemma_multiset_commutative(parcial.insert(p, t), restantes.remove(idx));
    vstd::seq_lib::to_multiset_insert(parcial, p, t);
    vstd::seq_lib::to_multiset_remove(restantes, idx);
    restantes.to_multiset_ensures();
    assert(restantes.contains(t));
    assert((parcial.insert(p, t) + restantes.remove(idx)).to_multiset() =~= (parcial
        + restantes).to_multiset());
}

/// The partial schedule that puts task `t` into `seq` at the best position:
/// all positions are tried, each is scored by the cost of the tasks placed
/// so far, and the first of the cheapest wins.
pub fn melhor_insercao(inst: &Instancia, seq: &Sequencia, t: IdTarefa) -> (best: Sequencia)
    requires
        eh_parcial(seq@, inst@.len()),
        t < inst@.len(),
        !seq@.contains(t),
    ensures
        best@ == insere_melhor(inst@, seq@, t),
        eh_parcial(best@, inst@.len()),
        exists|p: int| #[trigger] eh_melhor_posicao(inst@, seq@, t, p) && best@ == seq@.insert(p, t),
{
    let ghost ts = inst@;
    let ghost s = seq@;
    let n: usize = inst.num_tarefas();
    proof {
        lemma_parcial_com_mais_uma(s, ts.len(), t, 0);
        lemma_parcial_prefixo(s.insert(0, t), ts.len(), 0);
        assert(s.insert(0, t).len() == s.len() + 1);
    }
    let mut best: Sequencia = seq.clone();
    assert(best@ =~= s);
    best.insert(0, t);
    let mut best_fo: i32 = custo_parcial(inst, &best);
    let ghost mut bp: int = 0;
    let mut i: usize = 1;
    while i < seq.len() + 1
        invariant
            1 <= i <= seq.len() + 1,
            seq.len() < n,
            n == ts.len(),
            ts == inst@,
            s == seq@,
            eh_parcial(s, ts.len()),
            t < ts.len(),
            !s.contains(t),
            0 <= bp < i,
            best@ == s.insert(bp, t),
            best_fo == custo_insercao(ts, s, t, bp),
            forall|q: int|
                0 <= q < i ==> #[trigger] custo_insercao(ts, s, t, q) >= custo_insercao(
                    ts,
                    s,
                    t,
                    bp,
                ),
            forall|q: int|
                0 <= q < bp ==> #[trigger] custo_insercao(ts, s, t, q) > custo_insercao(
                    ts,
                    s,
                    t,
                    bp,
                ),
        decreases seq.len() + 1 - i,
    {
        let mut v: Sequencia = seq.clone();
        assert(v@ =~= s);
        v.insert(i, t);
        proof {
            lemma_parcial_com_mais_uma(s, ts.len(), t, i as int);
        }
        let fo: i32 = custo_parcial(inst, &v);
        assert(fo == custo_insercao(ts, s, t, i as int));
        if fo < best_fo {
            best = v;
            best_fo = fo;
            proof {
                bp = i as int;
            }
        }
        i = i + 1;
    }
    proof {
        assert(eh_melhor_posicao(ts, s, t, bp));
        let c = choose|p: int| eh_melhor_posicao(ts, s, t, p);
        lemma_melhor_posicao_unica(ts, s, t, bp, c);
        lemma_parcial_com_mais_uma(s, ts.len(), t, bp);
    }
    best
}

/// The keys by which the greedy constructions rank the tasks: the negated
/// due dates, so that the latest due date comes first.
pub open spec fn chaves_neh(ts: Seq<DadosTarefa>) -> Seq<int> {
    Seq::new(ts.len(), |i: int| -ts[i].entrega)
}

/// The tasks ranked for the greedy constructions: latest due date first,
/// equal due dates in the order of their ids.
pub fn ordem_neh(inst: &Instancia) -> (ordem: Sequencia)
    ensures
        eh_ordem_estavel(chaves_neh(inst@), ordem@),
        eh_permutacao(ordem@, inst@.len()),
{
    let n: usize = inst.num_tarefas();
    let mut chaves: Vec<i64> = Vec::new();
    let mut i: usize = 0;
    while i < n
        invariant
            0 <= i <= n,
            n == inst@.len(),
            chaves.len() == i,
            forall|k: int| 0 <= k < i ==> chaves[k] == -inst@[k].entrega,
        decreases n - i,
    {
        chaves.push(-(inst.tarefa(i).entrega() as i64));
        i = i + 1;
    }
    assert(inteiros(chaves@) =~= chaves_neh(inst@));
    ordem_estavel(&chaves)
}

/// The sequence that the greedy construction has built when `k` tasks are
/// placed: the tasks are taken from the end of `ordem`, and each goes to its
/// best position in the sequence built so far.
pub open spec fn neh_parcial(ts: Seq<DadosTarefa>, ordem: Seq<usize>, k: int) -> Seq<usize>
    decreases k,
{
    if k <= 0 {
        Seq::empty()
    } else {
        insere_melhor(ts, neh_parcial(ts, ordem, k - 1), ordem[ordem.len() - k])
    }
}

/// Greedy construction by insertion: the tasks are taken by ascending due
/// date (of equal due dates, the larger id first), and each is put into the
/// sequence built so far at the position that makes the tasks placed so far
/// cheapest.
pub fn neh(inst: &Instancia) -> (sol: Solucao)
    ensures
        sol@.resolve(inst@),
        exists|ordem: Seq<usize>| #[trigger]
            eh_ordem_estavel(chaves_neh(inst@), ordem) && sol@.sequencia == neh_parcial(
                inst@,
                ordem,
                inst@.len() as int,
            ),
{
    let mut parcial: Sequencia = Vec::new();
    let n: usize = inst.num_tarefas();
    let mut seq: Sequencia = ordem_neh(inst);
    let ghost ordem = seq@;
    let ghost ts = inst@;
    proof {
        assert(parcial@ + seq@ =~= ordem);
    }
    while seq.len() > 0
        invariant
            ts == inst@,
            n == ts.len(),
            instancia_valida(ts),
            ordem.len() == n,
            eh_permutacao(ordem, n as nat),
            seq.len() <= n,
            seq@ == ordem.subrange(0, seq.len() as int),
            parcial@ == neh_parcial(ts, ordem, n - seq.len()),
            parcial.len() == n - seq.len(),
            eh_rearranjo(parcial@ + seq@, ordem),
        decreases seq.len(),
    {
        let ghost antes = parcial@;
        let ghost restantes = seq@;
        proof {
            lemma_rearranjo_de_permutacao(ordem, antes + restantes, n as nat);
            lemma_partes_de_permutacao(antes, restantes, n as nat);
            assert(!antes.contains(restantes[restantes.len() - 1]));
        }
        let t: usize = seq.pop().unwrap();
        parcial = melhor_insercao(inst, &parcial, t);
        proof {
            let p = choose|p: int| #[trigger]
                eh_melhor_posicao(ts, antes, t, p) && parcial@ == antes.insert(p, t);
            lemma_passa_tarefa(antes, restantes, restantes.len() - 1, p);
            assert(restantes.remove(restantes.len() - 1) =~= seq@);
            assert(t == ordem[ordem.len() - (n - seq.len())]);
        }
    }
    proof {
        assert(parcial@ + seq@ =~= parcial@);
        lemma_rearranjo_de_permutacao(ordem, parcial@, n as nat);
    }
    Solucao::new(inst, parcial)
}

/// The keys by which [`busca`] ranks the tasks for its first schedule: the
/// slack, due date minus processing time.
pub open spec fn chaves_folga(ts: Seq<DadosTarefa>) -> Seq<int> {
    Seq::new(ts.len(), |i: int| ts[i].entrega - ts[i].duracao)
}

/// The tasks by ascending slack, equal slacks in the order of their ids.
pub fn ordem_folga(inst: &Instancia) -> (ordem: Sequencia)
    ensures
        eh_ordem_estavel(chaves_folga(inst@), ordem@),
        eh_permutacao(ordem@, inst@.len()),
{
    let n: usize = inst.num_tarefas();
    let mut chaves: Vec<i64> = Vec::new();
    let mut i: usize = 0;
    while i < n
        invariant
            0 <= i <= n,
            n == inst@.len(),
            chaves.len() == i,
            forall|k: int| 0 <= k < i ==> chaves[k] == inst@[k].entrega - inst@[k].duracao,
        decreases n - i,
    {
        let t = inst.tarefa(i);
        chaves.push(t.entrega() as i64 - t.duracao() as i64);
        i = i + 1;
    }
    assert(inteiros(chaves@) =~= chaves_folga(inst@));
    ordem_estavel(&chaves)
}

/// The solution after task `t` has been tried at the first `j` positions:
/// at each, the task is moved there, and the move is kept when it makes the
/// solution strictly cheaper.
pub open spec fn realoca_ate(ts: Seq<DadosTarefa>, s: DadosSolucao, t: usize, j: int) -> DadosSolucao
    decreases j,
{
    if j <= 0 {
        s
    } else {
        let antes = realoca_ate(ts, s, t, j - 1);
        let seq = desloca(antes.sequencia, antes.sequencia.index_of(t), j - 1);
        if avalia(ts, seq) < antes.fo {
            DadosSolucao { sequencia: seq, fo: avalia(ts, seq) }
        } else {
            antes
        }
    }
}

/// Trying a task at all positions leaves a schedule, and never a dearer
/// one.
pub proof fn lemma_realoca(ts: Seq<DadosTarefa>, s: DadosSolucao, t: usize, j: int)
    requires
        instancia_valida(ts),
        s.resolve(ts),
        t < ts.len(),
        0 <= j <= ts.len(),
    ensures
        realoca_ate(ts, s, t, j).resolve(ts),
        realoca_ate(ts, s, t, j).fo <= s.fo,
    decreases j,
{
    if j > 0 {
        lemma_realoca(ts, s, t, j - 1);
        let antes = realoca_ate(ts, s, t, j - 1);
        lemma_permutacao_cobre(antes.sequencia, ts.len(), t);
        let p = antes.sequencia.index_of(t);
        lemma_desloca_rearranjo(antes.sequencia, p, j - 1);
        lemma_rearranjo_de_permutacao(antes.sequencia, desloca(antes.sequencia, p, j - 1), ts.len());
    }
}

/// The position of task `t` in a sequence that holds it once.
pub fn posicao_de(seq: &Sequencia, t: IdTarefa) -> (p: usize)
    requires
        seq@.contains(t),
        seq@.no_duplicates(),
    ensures
        p < seq.len(),
        seq[p as int] == t,
        p == seq@.index_of(t),
{
    let mut p: usize = 0;
    while p < seq.len() && seq[p] != t
        invariant
            0 <= p <= seq.len(),
            seq@.contains(t),
            forall|k: int| 0 <= k < p ==> seq[k] != t,
        decreases seq.len() - p,
    {
        p = p + 1;
    }
    proof {
        let k = seq@.index_of(t);
        assert(seq[k] == t);
    }
    p
}

/// Tries task `t` at every position of the schedule, one after the other,
/// and keeps each move that makes the schedule strictly cheaper.
pub fn realoca(inst: &Instancia, s: Solucao, t: IdTarefa) -> (r: Solucao)
    requires
        s@.resolve(inst@),
        t < inst@.len(),
    ensures
        r@ == realoca_ate(inst@, s@, t, inst@.len() as int),
        r@.resolve(inst@),
        r@.fo <= s@.fo,
{
    let n: usize = inst.num_tarefas();
    let ghost ts = inst@;
    let ghost inicial = s@;
    let mut s = s;
    let mut j: usize = 0;
    while j < n
        invariant
            0 <= j <= n,
            ts == inst@,
            n == ts.len(),
            instancia_valida(ts),
            inicial.resolve(ts),
            t < n,
            s@ == realoca_ate(ts, inicial, t, j as int),
        decreases n - j,
    {
        proof {
            lemma_realoca(ts, inicial, t, j as int);
            lemma_permutacao_cobre(s@.sequencia, n as nat, t);
        }
        let mut v: Sequencia = s.sequencia().clone();
        assert(v@ =~= s@.sequencia);
        let p: usize = posicao_de(&v, t);
        desloca_em(&mut v, p, j);
        let v = Solucao::new(inst, v);
        if v.fo() < s.fo() {
            s = v;
        }
        j = j + 1;
    }
    proof {
        lemma_realoca(ts, inicial, t, n as int);
    }
    s
}

/// The solution after the first `k` of the given tasks have each been tried
/// at every position, starting from `inicial`.
pub open spec fn busca_ate(
    ts: Seq<DadosTarefa>,
    inicial: DadosSolucao,
    tarefas: Seq<usize>,
    k: int,
) -> DadosSolucao
    decreases k,
{
    if k <= 0 {
        inicial
    } else {
        realoca_ate(ts, busca_ate(ts, inicial, tarefas, k - 1), tarefas[k - 1], ts.len() as int)
    }
}

/// The search reads no more of the tasks than it has tried.
pub proof fn lemma_busca_prefixo(
    ts: Seq<DadosTarefa>,
    inicial: DadosSolucao,
    a: Seq<usize>,
    b: Seq<usize>,
    k: int,
)
    requires
        0 <= k <= a.len(),
        k <= b.len(),
        forall|j: int| 0 <= j < k ==> a[j] == b[j],
    ensures
        busca_ate(ts, inicial, a, k) == busca_ate(ts, inicial, b, k),
    decreases k,
{
    if k > 0 {
        lemma_busca_prefixo(ts, inicial, a, b, k - 1);
    }
}

/// `s` is what the relocation search makes of the tasks `ts` when it starts
/// from `ordem` and tries the given tasks one after the other: `ordem` is
/// the order by ascending slack, and with no time allowed no task is tried.
pub open spec fn eh_busca(
    ts: Seq<DadosTarefa>,
    prazo: nat,
    ordem: Seq<usize>,
    tarefas: Seq<usize>,
    s: DadosSolucao,
) -> bool {
    &&& eh_ordem_estavel(chaves_folga(ts), ordem)
    &&& forall|k: int| 0 <= k < tarefas.len() ==> tarefas[k] < ts.len()
    &&& s == busca_ate(
        ts,
        DadosSolucao { sequencia: ordem, fo: custo(ts, ordem) },
        tarefas,
        tarefas.len() as int,
    )
    &&& s.fo <= custo(ts, ordem)
    &&& prazo == 0 ==> tarefas.len() == 0
}

/// `s` is what the relocation search makes of the tasks `ts` for some tasks
/// tried: see [`eh_busca`].
pub open spec fn pode_ser_busca(ts: Seq<DadosTarefa>, prazo: nat, s: DadosSolucao) -> bool {
    exists|ordem: Seq<usize>, tarefas: Seq<usize>| #[trigger] eh_busca(ts, prazo, ordem, tarefas, s)
}

/// Relocation search with the generator `rng`: starting from the tasks by
/// ascending slack, tries a task drawn from `rng` at every position, again
/// and again until `timeout` has gone by. Returns a schedule that costs no
/// more than the first.
pub fn busca_com(rng: &mut rand::XorShiftRng, inst: &Instancia, timeout: Duration) -> (s: Solucao)
    ensures
        s@.resolve(inst@),
        pode_ser_busca(inst@, nanos_de(timeout), s@),
{
    let n: usize = inst.num_tarefas();
    let inicial: Sequencia = ordem_folga(inst);
    let ghost ordem = inicial@;
    let ghost ts = inst@;
    proof {
        crate::custo::lemma_custo_finito(inst@, ordem);
    }
    let mut s: Solucao = Solucao::new(inst, inicial);
    let ghost primeira = s@;
    let ghost mut tarefas: Seq<usize> = Seq::empty();
    if n == 0 {
        proof {
            assert(eh_busca(ts, nanos_de(timeout), ordem, tarefas, s@));
        }
        return s;
    }
    let t = Instant::now();
    let mut voltas: u64 = 0;
    while voltas < u64::MAX && dentro_do_prazo(&t, &timeout)
        invariant
            ts == inst@,
            n == ts.len(),
            n > 0,
            s@.resolve(ts),
            primeira == (DadosSolucao { sequencia: ordem, fo: custo(ts, ordem) }),
            s@.fo <= custo(ts, ordem),
            forall|k: int| 0 <= k < tarefas.len() ==> tarefas[k] < n,
            s@ == busca_ate(ts, primeira, tarefas, tarefas.len() as int),
            tarefas.len() > 0 ==> nanos_de(timeout) > 0,
        decreases u64::MAX - voltas,
    {
        let sorteio: usize = sorteia(rng);
        let tarefa: usize = sorteio % n;
        proof {
            let antes = tarefas;
            tarefas = antes.push(tarefa);
            lemma_busca_prefixo(ts, primeira, antes, tarefas, antes.len() as int);
        }
        s = realoca(inst, s, tarefa);
        voltas = voltas + 1;
    }
    proof {
        assert(eh_busca(ts, nanos_de(timeout), ordem, tarefas, s@));
    }
    s
}

/// Relocation search for five seconds, with a generator of its own, freshly
/// seeded. See [`busca_com`].
pub fn busca(inst: &Instancia) -> (s: Solucao)
    ensures
        s@.resolve(inst@),
        pode_ser_busca(inst@, 5_000_000_000, s@),
{
    let mut rng = novo_gerador();
    busca_com(&mut rng, inst, Duration::from_secs(5))
}

} // verus!
