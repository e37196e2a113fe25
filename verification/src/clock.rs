//! The wall clock.

use vstd::prelude::*;

verus! {

/// The time from one moment to a later one; zero where it is not later.
pub open spec fn monus(later: int, earlier: int) -> int {
    if later >= earlier {
        later - earlier
    } else {
        0
    }
}

/// The time from one moment to a later one; zero where it is not later.
pub fn elapsed_ms(later: u64, earlier: u64) -> (r: u64)
    ensures
        r == monus(later as int, earlier as int),
{
    if later >= earlier {
        later - earlier
    } else {
        0
    }
}

/// `std::time::SystemTime`, a reading of the wall clock.
#[verifier::external_type_specification]
#[verifier::external_body]
pub struct ExSystemTime(std::time::SystemTime);

/// How long before a reading the Unix epoch was, as `std::time::SystemTime::duration_since` gives
/// it; none where the reading is earlier.
pub uninterp spec fn epoch_elapsed(now: std::time::SystemTime) -> Option<core::time::Duration>;

/// The whole milliseconds of a length of time, as `core::time::Duration::as_millis` gives them.
pub uninterp spec fn duration_millis(elapsed: core::time::Duration) -> u128;

/// Reads the wall clock with `std::time::SystemTime::now`. What it shows depends on the machine,
/// so nothing is stated of it.
#[verifier::external_body]
fn read_clock() -> (now: std::time::SystemTime) {
    std::time::SystemTime::now()
}

/// How long before a reading the Unix epoch was, by `std::time::SystemTime::duration_since`, which
/// depends on the reading alone; none where the reading is earlier. The length is not restated: a
/// reading is opaque.
#[verifier::external_body]
fn since_epoch(now: std::time::SystemTime) -> (elapsed: Option<core::time::Duration>)
    ensures
        elapsed == epoch_elapsed(now),
{
    now.duration_since(std::time::UNIX_EPOCH).ok()
}

/// The whole milliseconds of a length of time, by `core::time::Duration::as_millis`, which depends
/// on the length alone. The number is not restated: a length of time is opaque.
#[verifier::external_body]
fn whole_millis(elapsed: core::time::Duration) -> (millis: u128)
    ensures
        millis == duration_millis(elapsed),
{
    elapsed.as_millis()
}

/// What the clock counts: the low 64 bits of the milliseconds since the epoch; zero where the
/// clock stands before the epoch.
pub open spec fn clock_value(millis: Option<u128>) -> int {
    match millis {
        Some(m) => m as int % 0x1_0000_0000_0000_0000,
        None => 0,
    }
}

/// Milliseconds since the epoch as the clock counts them.
pub fn clock_ms(millis: Option<u128>) -> (r: u64)
    ensures
        r == clock_value(millis),
{
    match millis {
        Some(m) => (m % 0x1_0000_0000_0000_0000) as u64,
        None => 0,
    }
}

/// The milliseconds from the epoch to a reading; none where the reading is earlier.
pub open spec fn reading_millis(now: std::time::SystemTime) -> Option<u128> {
    match epoch_elapsed(now) {
        Some(elapsed) => Some(duration_millis(elapsed)),
        None => None,
    }
}

/// The current time as unix milliseconds: what the clock counts at some reading.
pub fn local_ts_ms() -> (r: u64)
    ensures
        exists|now: std::time::SystemTime| r == clock_value(#[trigger] reading_millis(now)),
{
    let now: std::time::SystemTime = read_clock();
    let ghost reading = now;
    let millis: Option<u128> = match since_epoch(now) {
        Some(elapsed) => Some(whole_millis(elapsed)),
        None => None,
    };
    assert(millis == reading_millis(reading));
    clock_ms(millis)
}

} // verus!
