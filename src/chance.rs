use rand::Rng;
use vstd::prelude::*;

verus! {

#[verifier::external_type_specification]
#[verifier::external_body]
pub struct ExInstant(instant::Instant);

/// Relies on `rand::thread_rng` and `Rng::gen_range`: a value drawn from
/// `0..n`. `gen_range` panics only on an empty range, which `n > 0` rules out.
#[verifier::external_body]
pub(crate) fn random_below(n: usize) -> (r: usize)
    requires
        n > 0,
    ensures
        r < n,
{
    rand::thread_rng().gen_range(0..n)
}

/// Relies on `Instant::now`: the current reading of the monotonic clock.
/// Nothing is known of its value.
#[verifier::external_body]
pub(crate) fn clock_now() -> (r: instant::Instant) {
    instant::Instant::now()
}

/// Relies on `Instant::duration_since` and `Duration::as_micros`: the whole
/// microseconds from `earlier` to `later` (zero when `earlier` is the later
/// one, as `duration_since` saturates). Nothing is known of its value.
#[verifier::external_body]
pub(crate) fn micros_between(earlier: &instant::Instant, later: &instant::Instant) -> (r: u64) {
    later.duration_since(*earlier).as_micros() as u64
}

} // verus!
