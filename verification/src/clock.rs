//! The clock of the machine, and the serial number that a time gives.
use std::time::{Duration, SystemTime, SystemTimeError};
use vstd::prelude::*;

verus! {

/// A point in time on the clock of the machine. Nothing is known of what is in it.
#[verifier::external_type_specification]
#[verifier::external_body]
pub struct ExSystemTime(SystemTime);

/// Why a point in time is not later than another. Nothing is known of what is in it.
#[verifier::external_type_specification]
#[verifier::external_body]
pub struct ExSystemTimeError(SystemTimeError);

/// `SystemTime::now`: the time on the clock of the machine. Nothing is claimed of it.
#[verifier::external_body]
fn system_time_now() -> (now: SystemTime) {
    SystemTime::now()
}

/// `SystemTime::duration_since` from `UNIX_EPOCH`: the time that has passed since 1970, or
/// an error for a point in time before 1970. Nothing is claimed of either.
#[verifier::external_body]
fn since_unix_epoch(t: &SystemTime) -> (passed: Result<Duration, SystemTimeError>) {
    t.duration_since(std::time::UNIX_EPOCH)
}

/// `Duration::as_secs`: the whole seconds of a span of time. Nothing is claimed of them.
#[verifier::external_body]
fn whole_seconds(d: &Duration) -> (seconds: u64) {
    d.as_secs()
}

/// `Duration::subsec_nanos`: the part of a span of time beyond its whole seconds, in
/// nanoseconds; it is less than a second.
#[verifier::external_body]
fn nanoseconds_beyond(d: &Duration) -> (nanos: u32)
    ensures
        nanos < 1_000_000_000,
{
    d.subsec_nanos()
}

/// A reading of the clock of the machine: the whole seconds since 1970 and the nanoseconds
/// beyond them, or nothing where the clock stands before 1970. Nothing is promised of the
/// seconds; the nanoseconds are less than a second.
pub fn elapsed_since_1970() -> (reading: Option<(u64, u32)>)
    ensures
        reading is Some ==> reading.unwrap().1 < 1_000_000_000,
{
    let now = system_time_now();
    match since_unix_epoch(&now) {
        Ok(passed) => Some((whole_seconds(&passed), nanoseconds_beyond(&passed))),
        Err(_) => None,
    }
}

/// The serial number for a time given in seconds since 1970: the seconds modulo 2^32.
pub open spec fn serial_of(seconds: u64) -> u32 {
    (seconds % 0x1_0000_0000) as u32
}

/// The serial number for a time given in seconds since 1970.
pub fn serial_from_unix_seconds(seconds: u64) -> (serial: u32)
    ensures
        serial == serial_of(seconds),
{
    (seconds % 0x1_0000_0000) as u32
}

/// The serial number for the time on the clock of the machine; zero where the clock stands
/// before 1970. What the clock says decides, so nothing is promised of the number here:
/// `serial_from_elapsed` says which number comes of which reading of the clock.
pub fn current_serial() -> (serial: u32) {
    let elapsed: Option<u64> = match elapsed_since_1970() {
        Some(reading) => Some(reading.0),
        None => None,
    };
    serial_from_elapsed(elapsed)
}

/// The serial number for a reading of the clock: the seconds since 1970 where the clock gave
/// them, and nothing where it stood before 1970.
pub open spec fn serial_for(elapsed: Option<u64>) -> u32 {
    match elapsed {
        Some(seconds) => serial_of(seconds),
        None => 0,
    }
}

/// The serial number for a reading of the clock: the seconds modulo 2^32, and zero for a
/// clock that stood before 1970.
pub fn serial_from_elapsed(elapsed: Option<u64>) -> (serial: u32)
    ensures
        serial == serial_for(elapsed),
{
    match elapsed {
        Some(seconds) => serial_from_unix_seconds(seconds),
        None => 0,
    }
}

} // verus!
