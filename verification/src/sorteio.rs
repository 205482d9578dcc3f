//! The random source of the engines: the xorshift generator of the `rand`
//! crate, and the three things the library asks of it.
//!
//! Nothing is known of a draw but its type, so whatever the library proves
//! of a randomised function holds for every stream of draws.

use vstd::prelude::*;
use rand::Rng;

verus! {

/// `rand::XorShiftRng`, carried through as an opaque value.
#[verifier::external_type_specification]
#[verifier::external_body]
pub struct ExXorShiftRng(rand::XorShiftRng);

/// Calls `rand::weak_rng`, which hands out a xorshift generator seeded from
/// the thread-local generator. Nothing is claimed of the generator.
#[verifier::external_body]
pub(crate) fn novo_gerador() -> (rng: rand::XorShiftRng) {
    rand::weak_rng()
}

/// Calls `Rng::gen::<usize>`, which advances the generator and returns the
/// next draw. Nothing is claimed of the draw.
#[verifier::external_body]
pub(crate) fn sorteia(rng: &mut rand::XorShiftRng) -> (r: usize) {
    rng.gen::<usize>()
}

/// Calls `Rng::shuffle` on the whole vector. The crate shuffles with a
/// Fisher-Yates loop that only ever exchanges two elements of the slice, so
/// the vector afterwards holds the same ids as before, each as often as
/// before; in which order is not claimed.
#[verifier::external_body]
pub(crate) fn embaralha(rng: &mut rand::XorShiftRng, seq: &mut Vec<usize>)
    ensures
        final(seq)@.to_multiset() == old(seq)@.to_multiset(),
{
    rng.shuffle(seq.as_mut_slice())
}

} // verus!
