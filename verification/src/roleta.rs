//! Roulette-wheel selection in exact arithmetic.
//!
//! Each individual weighs the reciprocal of its cost, so cheaper
//! individuals are drawn more often. Weights are integers: the reciprocal is
//! taken of [`ESCALA`] instead of one. The wheel is the sequence of partial
//! sums of the weights; a draw below the total picks the first individual
//! whose partial sum exceeds it.
//!
//! A cost of zero has no reciprocal. It is the best cost there is, so the
//! first individual of cost zero takes the whole wheel.

use vstd::prelude::*;

verus! {

/// What the reciprocal of a cost is taken of.
pub const ESCALA: u128 = 1_000_000_000_000_000_000;

/// `z` is the first position whose cost has no reciprocal.
pub open spec fn eh_primeiro_nulo(custos: Seq<int>, z: int) -> bool {
    &&& 0 <= z < custos.len()
    &&& custos[z] <= 0
    &&& forall|j: int| 0 <= j < z ==> custos[j] > 0
}

/// Some cost has no reciprocal.
pub open spec fn tem_nulo(custos: Seq<int>) -> bool {
    exists|z: int| eh_primeiro_nulo(custos, z)
}

/// The weight of individual `k`: the reciprocal of its cost, scaled; or,
/// when some cost is zero, one for the first such individual and zero for
/// all others.
pub open spec fn peso(custos: Seq<int>, k: int) -> int {
    if tem_nulo(custos) {
        if eh_primeiro_nulo(custos, k) {
            1
        } else {
            0
        }
    } else {
        ESCALA as int / custos[k]
    }
}

/// Sum of the weights of the first `k` individuals.
pub open spec fn acumulado(custos: Seq<int>, k: int) -> int
    decreases k,
{
    if k <= 0 {
        0
    } else {
        acumulado(custos, k - 1) + peso(custos, k - 1)
    }
}

/// `roleta` is the wheel of the costs: entry `k` is the sum of the weights
/// up to and including individual `k`.
pub open spec fn eh_roleta(custos: Seq<int>, roleta: Seq<u128>) -> bool {
    &&& roleta.len() == custos.len()
    &&& forall|k: int| 0 <= k < roleta.len() ==> #[trigger] roleta[k] == acumulado(custos, k + 1)
}

/// `k` is the first entry of the wheel that exceeds `alvo`.
pub open spec fn eh_primeiro_acima(roleta: Seq<u128>, alvo: u128, k: int) -> bool {
    &&& 0 <= k < roleta.len()
    &&& alvo < roleta[k]
    &&& forall|j: int| 0 <= j < k ==> roleta[j] <= alvo
}

/// No entry of the wheel exceeds `alvo`.
pub open spec fn nenhum_acima(roleta: Seq<u128>, alvo: u128) -> bool {
    forall|j: int| 0 <= j < roleta.len() ==> roleta[j] <= alvo
}

/// `k` is the individual that `alvo` picks: the first whose entry exceeds
/// it, and the first of all where none does.
pub open spec fn eh_escolhido(roleta: Seq<u128>, alvo: u128, k: int) -> bool {
    eh_primeiro_acima(roleta, alvo, k) || (k == 0 && nenhum_acima(roleta, alvo))
}

/// Individual `k` can be drawn on the wheel: some target below the total
/// picks it. On an empty wheel and on a wheel without weight, the first
/// individual is the one that can.
pub open spec fn pode_sair(roleta: Seq<u128>, k: int) -> bool {
    if roleta.len() > 0 && roleta.last() > 0 {
        exists|alvo: u128| alvo < roleta.last() && #[trigger] eh_escolhido(roleta, alvo, k)
    } else {
        k == 0
    }
}

/// Weights are not negative, and bounded by the scale where costs are at
/// least one.
pub proof fn lemma_peso_limitado(custos: Seq<int>, k: int)
    requires
        0 <= k < custos.len(),
    ensures
        0 <= peso(custos, k) <= ESCALA,
{
    if !tem_nulo(custos) {
        let c = custos[k];
        if c <= 0 {
            lemma_existe_primeiro_nulo(custos, k);
        }
        assert(0 <= ESCALA as int / c <= ESCALA) by (nonlinear_arith)
            requires
                c >= 1,
        ;
    }
}

/// Where some cost is not positive, some position is the first such.
pub proof fn lemma_existe_primeiro_nulo(custos: Seq<int>, k: int)
    requires
        0 <= k < custos.len(),
        custos[k] <= 0,
    ensures
        tem_nulo(custos),
    decreases k,
{
    if exists|j: int| 0 <= j < k && custos[j] <= 0 {
        let j = choose|j: int| 0 <= j < k && custos[j] <= 0;
        lemma_existe_primeiro_nulo(custos, j);
    } else {
        assert(eh_primeiro_nulo(custos, k));
    }
}

/// The partial sums grow by at most the scale per individual.
pub proof fn lemma_acumulado_limitado(custos: Seq<int>, k: int)
    requires
        0 <= k <= custos.len(),
    ensures
        0 <= acumulado(custos, k) <= k * ESCALA,
    decreases k,
{
    if k > 0 {
        lemma_acumulado_limitado(custos, k - 1);
        lemma_peso_limitado(custos, k - 1);
        assert((k - 1) * ESCALA + ESCALA == k * ESCALA) by (nonlinear_arith);
    } else {
        assert(0 * ESCALA == 0);
    }
}

/// One draw for the whole width of the wheel, out of two draws of a machine
/// word: the first gives the upper 64 bits, the second the lower.
pub fn sorteio_largo(alto: usize, baixo: usize) -> (r: u128)
    ensures
        r == alto * 0x1_0000_0000_0000_0000 + baixo,
{
    assert(alto * 0x1_0000_0000_0000_0000 + baixo <= u128::MAX) by (nonlinear_arith)
        requires
            alto <= 0xFFFF_FFFF_FFFF_FFFF,
            baixo <= 0xFFFF_FFFF_FFFF_FFFF,
    ;
    (alto as u128) * 0x1_0000_0000_0000_0000 + (baixo as u128)
}

/// The individual that `alvo` picks on the wheel.
pub fn indice_na_roleta(roleta: &Vec<u128>, alvo: u128) -> (k: usize)
    ensures
        eh_escolhido(roleta@, alvo, k as int),
{
    let mut i: usize = 0;
    while i < roleta.len()
        invariant
            0 <= i <= roleta.len(),
            forall|j: int| 0 <= j < i ==> roleta[j] <= alvo,
        decreases roleta.len() - i,
    {
        if alvo < roleta[i] {
            return i;
        }
        i = i + 1;
    }
    0
}

} // verus!
