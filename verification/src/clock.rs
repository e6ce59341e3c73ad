//! The clocks of the machine.

use vstd::prelude::*;

verus! {

/// A reading of the monotonic clock.
#[verifier::external_type_specification]
#[verifier::external_body]
pub struct ExInstant(std::time::Instant);

/// A reading of the wall clock.
#[verifier::external_type_specification]
#[verifier::external_body]
pub struct ExSystemTime(std::time::SystemTime);

/// Why there is no wall-clock time.
#[derive(Clone, Copy, Debug, PartialEq, Eq, Structural)]
pub enum ClockError {
    BeforeEpoch,
}

/// Calls `Instant::now`. Nothing is claimed of the reading.
#[verifier::external_body]
fn monotonic_now() -> (reading: std::time::Instant) {
    std::time::Instant::now()
}

/// Calls `Instant::elapsed`, as nanoseconds. Nothing is claimed of the amount.
#[verifier::external_body]
fn nanos_since(origin: &std::time::Instant) -> (nanos: u128) {
    origin.elapsed().as_nanos()
}

/// Whether `reading` is one that the monotonic clock gave.
pub closed spec fn is_reading(reading: std::time::Instant) -> bool {
    call_ensures(monotonic_now, (), reading)
}

/// Whether `nanos` is what the monotonic clock gave as the time since `origin`, in
/// nanoseconds.
pub closed spec fn is_elapsed(origin: std::time::Instant, nanos: nat) -> bool {
    exists|n: u128| #[trigger] call_ensures(nanos_since, (&origin,), n) && n == nanos
}

/// A reading of the monotonic clock, from which times are counted.
pub(crate) fn clock_reading() -> (reading: std::time::Instant)
    ensures
        is_reading(reading),
{
    monotonic_now()
}

/// The time since `origin`, in nanoseconds.
pub(crate) fn time_since(origin: &std::time::Instant) -> (nanos: u128)
    ensures
        is_elapsed(*origin, nanos as nat),
{
    let nanos: u128 = nanos_since(origin);
    assert(call_ensures(nanos_since, (origin,), nanos));
    nanos
}

/// Calls `SystemTime::now`. Nothing is claimed of the reading.
#[verifier::external_body]
pub(crate) fn wall_now() -> (reading: std::time::SystemTime) {
    std::time::SystemTime::now()
}

/// Calls `SystemTime::duration_since` with the Unix epoch, as whole seconds. Nothing is
/// claimed of the amount, nor of when there is none.
#[verifier::external_body]
pub(crate) fn epoch_seconds(reading: &std::time::SystemTime) -> (seconds: Option<u64>) {
    match reading.duration_since(std::time::UNIX_EPOCH) {
        Ok(elapsed) => Some(elapsed.as_secs()),
        Err(_) => None,
    }
}

} // verus!
