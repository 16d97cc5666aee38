//! Monotonic time, read through `std::time`.
use vstd::prelude::*;

verus! {

/// A point in monotonic time.
#[verifier::external_type_specification]
#[verifier::external_body]
pub struct ExInstant(std::time::Instant);

/// Calls `std::time::Instant::now`. The result depends on the time of the
/// call, so nothing is stated of it.
#[verifier::external_body]
pub(crate) fn now() -> (t: std::time::Instant) {
    std::time::Instant::now()
}

/// Calls `std::time::Instant::duration_since`: the time elapsed from
/// `earlier` to `later` (zero if `earlier` is the later one). Instants are
/// opaque here, so nothing is stated of the result.
#[verifier::external_body]
pub(crate) fn duration_since(later: &std::time::Instant, earlier: &std::time::Instant) -> (d: std::time::Duration) {
    later.duration_since(*earlier)
}

/// Calls `std::time::Duration::as_millis`: the whole milliseconds of `d`.
/// Durations are opaque here, so nothing is stated of the result.
#[verifier::external_body]
pub(crate) fn as_millis(d: &std::time::Duration) -> (ms: u128) {
    d.as_millis()
}

/// Calls `std::time::Instant::elapsed`: the time since `t`. It depends on
/// the time of the call, so nothing is stated of it.
#[verifier::external_body]
pub(crate) fn elapsed(t: &std::time::Instant) -> (d: std::time::Duration) {
    t.elapsed()
}

/// Calls `std::time::Duration::as_nanos`: the whole nanoseconds of `d`.
/// Durations are opaque here, so nothing is stated of the result.
#[verifier::external_body]
pub(crate) fn as_nanos(d: &std::time::Duration) -> (ns: u128) {
    d.as_nanos()
}

} // verus!
