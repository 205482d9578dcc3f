//! Stable sorting by integer keys.
//!
//! The order is computed on positions: the result lists the positions of the
//! keys from the smallest key to the largest, equal keys in the order
//! they come in. Since no two positions compare equal, the result is unique.

use vstd::prelude::*;
use crate::permutacao::eh_permutacao;

verus! {

/// Position `a` comes before position `b`: its key is smaller, or the keys
/// are equal and `a` is the earlier position.
pub open spec fn precede(chaves: Seq<int>, a: int, b: int) -> bool {
    chaves[a] < chaves[b] || (chaves[a] == chaves[b] && a < b)
}

/// `ordem` is the stable ascending order of the positions of `chaves`.
pub open spec fn eh_ordem_estavel(chaves: Seq<int>, ordem: Seq<usize>) -> bool {
    &&& eh_permutacao(ordem, chaves.len())
    &&& forall|i: int, j: int|
        0 <= i < j < ordem.len() ==> precede(chaves, ordem[i] as int, ordem[j] as int)
}

/// Two stable orders of the same keys agree on their first `i` positions.
proof fn lemma_ordens_iguais_ate(chaves: Seq<int>, a: Seq<usize>, b: Seq<usize>, i: int)
    requires
        eh_ordem_estavel(chaves, a),
        eh_ordem_estavel(chaves, b),
        0 <= i <= chaves.len(),
    ensures
        forall|k: int| 0 <= k < i ==> a[k] == b[k],
    decreases i,
{
    if i > 0 {
        lemma_ordens_iguais_ate(chaves, a, b, i - 1);
        let p = i - 1;
        if a[p] != b[p] {
            // Each of the two ids sits later in the other order, so each
            // comes before the other.
            crate::permutacao::lemma_permutacao_cobre(b, chaves.len(), a[p]);
            crate::permutacao::lemma_permutacao_cobre(a, chaves.len(), b[p]);
            let j = b.index_of(a[p]);
            let k = a.index_of(b[p]);
            if j < p {
                assert(a[j] == b[j]);
            }
            if k < p {
                assert(b[k] == a[k]);
            }
            assert(precede(chaves, b[p] as int, b[j] as int));
            assert(precede(chaves, a[p] as int, a[k] as int));
        }
    }
}

/// There is one stable order of the keys only.
pub proof fn lemma_ordem_estavel_unica(chaves: Seq<int>, a: Seq<usize>, b: Seq<usize>)
    requires
        eh_ordem_estavel(chaves, a),
        eh_ordem_estavel(chaves, b),
    ensures
        a == b,
{
    lemma_ordens_iguais_ate(chaves, a, b, chaves.len() as int);
    assert(a =~= b);
}

/// The keys as mathematical integers.
pub open spec fn inteiros(chaves: Seq<i64>) -> Seq<int> {
    chaves.map_values(|c: i64| c as int)
}

/// The positions of `chaves` in stable ascending order of their keys.
pub fn ordem_estavel(chaves: &Vec<i64>) -> (ordem: Vec<usize>)
    ensures
        eh_ordem_estavel(inteiros(chaves@), ordem@),
{
    let n: usize = chaves.len();
    let ghost ints = inteiros(chaves@);
    let mut ordem: Vec<usize> = Vec::new();
    let mut i: usize = 0;
    while i < n
        invariant
            n == chaves.len(),
            0 <= i <= n,
            ints == inteiros(chaves@),
            eh_permutacao(ordem@, i as nat),
            forall|a: int, b: int|
                0 <= a < b < ordem.len() ==> precede(ints, ordem[a] as int, ordem[b] as int),
        decreases n - i,
    {
        let chave: i64 = chaves[i];
        let mut p: usize = ordem.len();
        while p > 0 && chaves[ordem[p - 1]] > chave
            invariant
                n == chaves.len(),
                i < n,
                chave == chaves[i as int],
                0 <= p <= ordem.len(),
                eh_permutacao(ordem@, i as nat),
                forall|q: int| p <= q < ordem.len() ==> chaves[ordem[q] as int] > chave,
            decreases p,
        {
            p = p - 1;
        }
        let ghost antes = ordem@;
        ordem.insert(p, i);
        proof {
            let depois = ordem@;
            assert forall|a: int, b: int| 0 <= a < b < depois.len() implies precede(
                ints,
                depois[a] as int,
                depois[b] as int,
            ) by {
                if b < p {
                    assert(depois[a] == antes[a] && depois[b] == antes[b]);
                } else if b == p {
                    assert(depois[a] == antes[a]);
                    if a < p - 1 {
                        assert(precede(ints, antes[a] as int, antes[p - 1] as int));
                    }
                } else if a < p {
                    assert(depois[a] == antes[a] && depois[b] == antes[b - 1]);
                } else if a == p {
                    assert(depois[b] == antes[b - 1]);
                } else {
                    assert(depois[a] == antes[a - 1] && depois[b] == antes[b - 1]);
                }
            }
            assert forall|a: int, b: int| 0 <= a < depois.len() && 0 <= b < depois.len() && a
                != b implies depois[a] != depois[b] by {
                let aa = if a < p { a } else { a - 1 };
                let bb = if b < p { b } else { b - 1 };
                if a != p {
                    assert(depois[a] == antes[aa]);
                }
                if b != p {
                    assert(depois[b] == antes[bb]);
                }
            }
            assert forall|a: int| 0 <= a < depois.len() implies depois[a] < i + 1 by {
                let aa = if a < p { a } else { a - 1 };
                if a != p {
                    assert(depois[a] == antes[aa]);
                }
            }
        }
        i = i + 1;
    }
    ordem
}

} // verus!
