//! The clock: milliseconds since the Unix epoch, or since a later epoch of
//! the caller's choice.

use vstd::prelude::*;

verus! {

/// `std::time::SystemTime`, an instant of the system clock, carried
/// through as it is.
#[verifier::external_type_specification]
#[verifier::external_body]
pub struct ExSystemTime(std::time::SystemTime);

/// `SystemTime::now` reads the system clock. Nothing is claimed of the
/// reading.
#[verifier::external_body]
fn system_now() -> std::time::SystemTime {
    std::time::SystemTime::now()
}

/// `SystemTime::duration_since` gives the time elapsed since an earlier
/// instant, here the Unix epoch, and fails where the clock reads earlier
/// than that. Nothing is claimed of the result.
#[verifier::external_body]
fn since_unix_epoch(t: &std::time::SystemTime) -> Option<std::time::Duration> {
    match t.duration_since(std::time::UNIX_EPOCH) {
        Ok(d) => Some(d),
        Err(_) => None,
    }
}

/// `Duration::as_millis` gives the whole milliseconds of a duration.
/// Nothing is claimed of the result.
#[verifier::external_body]
fn whole_millis(d: &std::time::Duration) -> u128 {
    d.as_millis()
}

/// The low 64 bits of a count of milliseconds.
pub fn low_word(millis: u128) -> (r: u64)
    ensures
        r == millis % 0x1_0000_0000_0000_0000,
{
    assert(millis & 0xffff_ffff_ffff_ffff == millis % 0x1_0000_0000_0000_0000) by (bit_vector);
    assert(millis & 0xffff_ffff_ffff_ffff <= 0xffff_ffff_ffff_ffff) by (bit_vector);
    (millis & 0xffff_ffff_ffff_ffff) as u64
}

/// What a reading of the clock is taken as: the low 64 bits of its
/// milliseconds, or 0 where the clock reads earlier than the Unix epoch
/// and so gives none.
pub open spec fn spec_timestamp_of(reading: Option<u128>) -> u64 {
    match reading {
        Some(millis) => (millis % 0x1_0000_0000_0000_0000) as u64,
        None => 0,
    }
}

/// Takes a reading of the clock, in milliseconds since the Unix epoch, as
/// a timestamp; no reading gives 0.
pub fn timestamp_of(reading: Option<u128>) -> (r: u64)
    ensures
        r == spec_timestamp_of(reading),
{
    match reading {
        Some(millis) => low_word(millis),
        None => 0,
    }
}

/// Returns the milliseconds elapsed since the Unix epoch, or 0 where the
/// clock reads earlier than the epoch.
pub fn current_timestamp() -> u64 {
    let t = system_now();
    let reading: Option<u128> = match since_unix_epoch(&t) {
        Some(d) => Some(whole_millis(&d)),
        None => None,
    };
    timestamp_of(reading)
}

/// A clock reading counted from `epoch`: the reading less the epoch, or the
/// reading itself where the epoch lies after it.
pub open spec fn spec_since_epoch(millis: u64, epoch: u64) -> u64 {
    if epoch <= millis {
        (millis - epoch) as u64
    } else {
        millis
    }
}

/// Counts a clock reading from `epoch`.
pub fn since_epoch(millis: u64, epoch: u64) -> (r: u64)
    ensures
        r == spec_since_epoch(millis, epoch),
{
    if epoch <= millis {
        millis - epoch
    } else {
        millis
    }
}

/// Returns the milliseconds elapsed since `epoch`, itself given in
/// milliseconds since the Unix epoch: some reading of the clock, counted
/// from `epoch`.
pub fn now(epoch: u64) -> (r: u64)
    ensures
        exists|millis: u64| r == spec_since_epoch(millis, epoch),
{
    let millis: u64 = current_timestamp();
    since_epoch(millis, epoch)
}

} // verus!
