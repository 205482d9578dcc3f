//! The wall clock, as far as the engines look at it.

use vstd::prelude::*;
use std::time::{Duration, Instant};

verus! {

/// `std::time::Instant`, carried through as an opaque value.
#[verifier::external_type_specification]
#[verifier::external_body]
pub struct ExInstant(Instant);

/// The current instant. Nothing is claimed of it.
pub assume_specification[ Instant::now ]() -> (agora: Instant)
;

/// The time gone by since the instant. Nothing is claimed of it.
pub assume_specification[ Instant::elapsed ](inicio: &Instant) -> (decorrido: Duration)
;

/// The length of a duration, in nanoseconds: what `Duration::as_nanos`
/// returns.
pub uninterp spec fn nanos_de(d: Duration) -> nat;

/// `Duration::as_nanos` returns the length of the duration in nanoseconds.
pub assume_specification[ Duration::as_nanos ](d: &Duration) -> (nanos: u128)
    ensures
        nanos == nanos_de(*d),
;

/// `Duration::from_secs` makes the duration of so many whole seconds, which
/// is a thousand million nanoseconds for each.
pub assume_specification[ Duration::from_secs ](secs: u64) -> (d: Duration)
    ensures
        nanos_de(d) == secs * 1_000_000_000,
;

/// Whether less than `timeout` has gone by since `inicio`. The clock decides:
/// both times are read in nanoseconds, and [`prazo_aberto`] says what follows
/// from the two numbers. Whatever the clock says, a timeout of length zero
/// is never open.
pub fn dentro_do_prazo(inicio: &Instant, timeout: &Duration) -> (aberto: bool)
    ensures
        aberto ==> nanos_de(*timeout) > 0,
{
    let decorrido = inicio.elapsed();
    prazo_aberto(decorrido.as_nanos(), timeout.as_nanos())
}

/// Whether a run that has taken `decorrido` nanoseconds may go on when it is
/// allowed `limite` nanoseconds: it may while it has taken strictly less.
/// With nothing allowed it never may.
pub fn prazo_aberto(decorrido: u128, limite: u128) -> (aberto: bool)
    ensures
        aberto == (decorrido < limite),
{
    decorrido < limite
}

} // verus!
