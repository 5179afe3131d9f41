use vstd::prelude::*;
use std::time::{Duration, SystemTime};

verus! {

#[verifier::external_type_specification]
#[verifier::external_body]
pub struct ExSystemTime(SystemTime);

/// Wraps `SystemTime::now`. What it returns depends on the machine's clock, so nothing is
/// stated of it.
#[verifier::external_body]
fn system_now() -> SystemTime {
    SystemTime::now()
}

/// Wraps `SystemTime::duration_since` from `UNIX_EPOCH`: the time since the epoch, or nothing
/// when `t` lies before it. Which of the two comes, and the duration, depend on `t`, of which
/// nothing is seen here, so nothing is stated.
#[verifier::external_body]
fn since_unix_epoch(t: &SystemTime) -> Option<Duration> {
    t.duration_since(std::time::UNIX_EPOCH).ok()
}

/// Wraps `Duration::as_millis`: the whole milliseconds of `d`, of which nothing is seen here.
#[verifier::external_body]
fn whole_millis(d: &Duration) -> u128 {
    d.as_millis()
}

/// The clock reading in milliseconds as the keyspace takes it: cut to 64 bits, and 0 when the
/// clock stands before the Unix epoch.
pub fn clock_millis(elapsed: Option<u128>) -> (ms: u64)
    ensures
        ms == match elapsed {
            Some(m) => m as u64,
            None => 0u64,
        },
{
    match elapsed {
        Some(m) => #[verifier::truncate] (m as u64),
        None => 0,
    }
}

/// Milliseconds since the Unix epoch by the system clock.
pub fn now_ms() -> u64 {
    let t = system_now();
    let elapsed = match since_unix_epoch(&t) {
        Some(d) => Some(whole_millis(&d)),
        None => None,
    };
    clock_millis(elapsed)
}

}
