use std::time::Duration;
use std::time::SystemTime;
use std::time::UNIX_EPOCH;
use vstd::prelude::*;

verus! {

/// A point in time of the wall clock, as the standard library has it.
/// Nothing of its contents is used here.
#[verifier::external_type_specification]
#[verifier::external_body]
pub struct ExSystemTime(SystemTime);

/// Calls `SystemTime::now`, which reads the wall clock. Nothing is claimed
/// of the value: two readings may differ in any way.
#[verifier::external_body]
fn wall_clock() -> (now: SystemTime) {
    SystemTime::now()
}

/// Calls `SystemTime::duration_since` with the Unix epoch, which gives the
/// time that has passed since then, or nothing for a point before the
/// epoch. Nothing is claimed of the value.
#[verifier::external_body]
fn since_epoch(point: &SystemTime) -> (passed: Option<Duration>) {
    match point.duration_since(UNIX_EPOCH) {
        Ok(passed) => Some(passed),
        Err(_) => None,
    }
}

/// Calls `Duration::as_millis`, which gives a span of time in whole
/// milliseconds. Nothing is claimed of the value.
#[verifier::external_body]
fn whole_millis(span: &Duration) -> (millis: u128) {
    span.as_millis()
}

/// The timestamp for a reading of the clock: the milliseconds that have
/// passed since the Unix epoch if they can be counted, the largest number
/// there is if they are too many, and 0 for a clock that stands before the
/// epoch.
pub fn stamp_of(passed: Option<u128>) -> (now: u64)
    ensures
        now == (match passed {
            None => 0u64,
            Some(millis) => if millis > u64::MAX {
                u64::MAX
            } else {
                millis as u64
            },
        }),
{
    match passed {
        None => 0,
        Some(millis) => if millis > 0xffff_ffff_ffff_ffff {
            u64::MAX
        } else {
            millis as u64
        },
    }
}

/// The timestamp for the present reading of the wall clock. What the clock
/// says is not known beforehand, so nothing is promised of the value; what
/// is made of the reading is [`stamp_of`].
pub(crate) fn current_time() -> (now: u64) {
    let point = wall_clock();
    match since_epoch(&point) {
        Some(span) => stamp_of(Some(whole_millis(&span))),
        None => stamp_of(None),
    }
}

} // verus!
