//! The monotonic clock of std, seen through the few calls the library makes.
use vstd::prelude::*;

verus! {

#[verifier::external_type_specification]
#[verifier::external_body]
pub struct ExInstant(std::time::Instant);

/// `Instant::now`: the current instant of the monotonic clock. Nothing is
/// promised of it: it depends on the time of the call.
#[verifier::external_body]
pub(crate) fn instant_now() -> std::time::Instant {
    std::time::Instant::now()
}

/// `Instant::elapsed`: the time passed since `since`. Nothing is promised
/// of its value: it depends on the time of the call.
#[verifier::external_body]
pub(crate) fn elapsed_since(since: &std::time::Instant) -> core::time::Duration {
    since.elapsed()
}

/// `Duration::as_secs`: the whole seconds of a duration. A duration is
/// opaque to the library, so no clause relates the number to it.
#[verifier::external_body]
pub(crate) fn duration_secs(d: &core::time::Duration) -> u64 {
    d.as_secs()
}

/// `Duration::as_nanos`: the whole nanoseconds of a duration. A duration is
/// opaque to the library, so no clause relates the number to it.
#[verifier::external_body]
pub(crate) fn duration_nanos(d: &core::time::Duration) -> u128 {
    d.as_nanos()
}

} // verus!
