//! Durations as counts of nanoseconds.
//!
//! `core::time::Duration` is opaque to the verifier. Its accessors and its
//! constructor are given contracts here, and everything else the library does
//! with durations is built on those.
use core::time::Duration;
use vstd::prelude::*;

verus! {

/// The whole seconds of a duration, as `Duration::as_secs` returns them.
pub uninterp spec fn whole_seconds(d: Duration) -> u64;

/// The nanoseconds of a duration beyond its whole seconds, as
/// `Duration::subsec_nanos` returns them.
pub uninterp spec fn subsecond_nanos(d: Duration) -> u32;

/// `Duration::as_secs`: the number of whole seconds.
pub assume_specification[ Duration::as_secs ](d: &Duration) -> (r: u64)
    ensures
        r == whole_seconds(*d),
;

/// `Duration::subsec_nanos`: the fractional part in nanoseconds, always less
/// than one second.
pub assume_specification[ Duration::subsec_nanos ](d: &Duration) -> (r: u32)
    ensures
        r == subsecond_nanos(*d),
        r < 1_000_000_000,
;

/// `Duration::new`: a duration of the given whole seconds and nanoseconds.
/// Nanoseconds that make up a second or more, which it would carry over into
/// the seconds, are left out.
pub assume_specification[ Duration::new ](secs: u64, nanos: u32) -> (r: Duration)
    requires
        nanos < 1_000_000_000,
    ensures
        whole_seconds(r) == secs,
        subsecond_nanos(r) == nanos,
;

/// `<Duration as Clone>::clone`: a copy of the duration.
pub assume_specification[ <Duration as Clone>::clone ](d: &Duration) -> (r: Duration)
    ensures
        r == *d,
;

/// A duration as a count of nanoseconds.
pub open spec fn nanos(d: Duration) -> nat {
    (whole_seconds(d) * 1_000_000_000 + subsecond_nanos(d)) as nat
}

/// The longest duration, as a count of nanoseconds.
pub open spec fn max_nanos() -> nat {
    (u64::MAX * 1_000_000_000 + 999_999_999) as nat
}

/// The duration of no length.
pub(crate) fn zero() -> (r: Duration)
    ensures
        nanos(r) == 0,
{
    Duration::new(0, 0)
}

/// The longest duration.
pub(crate) fn longest() -> (r: Duration)
    ensures
        nanos(r) == max_nanos(),
{
    Duration::new(u64::MAX, 999_999_999)
}

/// The duration as a count of nanoseconds.
pub(crate) fn total_nanos(d: Duration) -> (r: u128)
    ensures
        r == nanos(d),
        r <= max_nanos(),
        whole_seconds(d) == r / 1_000_000_000,
        subsecond_nanos(d) == r % 1_000_000_000,
{
    let secs: u64 = d.as_secs();
    let sub: u32 = d.subsec_nanos();
    secs as u128 * 1_000_000_000 + sub as u128
}

/// The duration of a given count of nanoseconds.
pub(crate) fn from_total_nanos(total: u128) -> (r: Duration)
    requires
        total <= max_nanos(),
    ensures
        nanos(r) == total,
{
    let secs: u128 = total / 1_000_000_000;
    let sub: u128 = total % 1_000_000_000;
    Duration::new(secs as u64, sub as u32)
}

/// Whether `a` is at least as long as `b`.
pub(crate) fn at_least(a: Duration, b: Duration) -> (r: bool)
    ensures
        r == (nanos(a) >= nanos(b)),
{
    total_nanos(a) >= total_nanos(b)
}

/// The shorter of two durations.
pub open spec fn shorter_of(a: Duration, b: Duration) -> Duration {
    if nanos(a) <= nanos(b) {
        a
    } else {
        b
    }
}

/// The shorter of two durations.
pub(crate) fn shorter(a: Duration, b: Duration) -> (r: Duration)
    ensures
        r == shorter_of(a, b),
        nanos(r) <= nanos(a),
        nanos(r) <= nanos(b),
{
    if at_least(b, a) {
        a
    } else {
        b
    }
}

} // verus!
