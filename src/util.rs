//! Durations as nanosecond counts.

use std::time::Duration;
use vstd::prelude::*;

verus! {

/// A span of time as a whole number of nanoseconds.
pub trait ToNanos {
    fn to_nanos(&self) -> u64;
}

/// `secs` seconds and `subsec_nanos` nanoseconds, in nanoseconds, or `u64::MAX` when that
/// does not fit.
pub open spec fn nanos_of(secs: u64, subsec_nanos: u32) -> u64 {
    let n = secs * 1_000_000_000 + subsec_nanos;
    if n > u64::MAX {
        u64::MAX
    } else {
        n as u64
    }
}

/// Counts `secs` seconds and `subsec_nanos` nanoseconds in nanoseconds, saturating at
/// `u64::MAX`.
pub fn nanos_from_parts(secs: u64, subsec_nanos: u32) -> (r: u64)
    ensures
        r == nanos_of(secs, subsec_nanos),
{
    match secs.checked_mul(1_000_000_000) {
        Some(whole) => match whole.checked_add(subsec_nanos as u64) {
            Some(n) => n,
            None => u64::MAX,
        },
        None => {
            assert(secs * 1_000_000_000 + subsec_nanos > u64::MAX);
            u64::MAX
        },
    }
}

/// Relies on `Duration::as_secs`: the whole seconds of the duration.
#[verifier::external_body]
fn duration_secs(d: &Duration) -> u64 {
    d.as_secs()
}

/// Relies on `Duration::subsec_nanos`: the nanoseconds beyond the whole seconds, always
/// below one second.
#[verifier::external_body]
fn duration_subsec_nanos(d: &Duration) -> (r: u32)
    ensures
        r < 1_000_000_000,
{
    d.subsec_nanos()
}

impl ToNanos for Duration {
    fn to_nanos(&self) -> u64 {
        nanos_from_parts(duration_secs(self), duration_subsec_nanos(self))
    }
}

} // verus!
