//! The time of day, in seconds of the Unix epoch.
use vstd::prelude::*;

verus! {

/// `std::time::SystemTime::now` reads the system clock; the reading is given in whole seconds
/// since the Unix epoch, and as nothing where the clock stands before it. Nothing is claimed of
/// it.
#[verifier::external_body]
fn read_clock() -> (r: Option<u64>) {
    match std::time::SystemTime::now().duration_since(std::time::UNIX_EPOCH) {
        Ok(d) => Some(d.as_secs()),
        Err(_) => None,
    }
}

/// The second that a reading of the clock stands for: zero where it is before the epoch.
pub open spec fn second_of(reading: Option<u64>) -> u64 {
    match reading {
        Some(s) => s,
        None => 0,
    }
}

/// The second that a reading of the clock stands for.
pub fn second_of_reading(reading: Option<u64>) -> (r: u64)
    ensures
        r == second_of(reading),
{
    match reading {
        Some(s) => s,
        None => 0,
    }
}

/// The current time in seconds since the Unix epoch, zero where the clock stands before it. As
/// the clock may say anything, nothing is promised of it.
pub fn now_unix() -> u64 {
    second_of_reading(read_clock())
}

} // verus!
