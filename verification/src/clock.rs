//! The wall clock, read through `std::time`.
use vstd::prelude::*;
use std::time::SystemTime;

verus! {

#[verifier::external_type_specification]
#[verifier::external_body]
pub struct ExSystemTime(std::time::SystemTime);

/// `SystemTime::now()`: the current time of the machine's clock. Nothing is
/// claimed about it.
#[verifier::external_body]
fn system_now() -> SystemTime {
    SystemTime::now()
}

/// `SystemTime::duration_since(UNIX_EPOCH)` in whole milliseconds (0 for a
/// time before the epoch). Nothing is claimed about the value: the time is
/// opaque here.
#[verifier::external_body]
fn millis_since_epoch(t: &SystemTime) -> u64 {
    t.duration_since(std::time::UNIX_EPOCH).unwrap_or_default().as_millis() as u64
}

/// Milliseconds elapsed since the Unix epoch according to the machine's clock.
/// Its value rests on that clock alone, so no contract states it: callers
/// hold only that it is some `u64`.
pub fn now_millis() -> u64 {
    let t = system_now();
    millis_since_epoch(&t)
}

} // verus!
