//! Multiplying a delay by a floating-point factor without ever failing.
//!
//! The product is taken in binary64 arithmetic: the delay is converted to
//! seconds, multiplied, and converted back to the nearest nanosecond.
use core::time::Duration;
use vstd::arithmetic::power2::pow2;
use vstd::prelude::*;

use crate::float;
use crate::float::Binary64;
use crate::rounding;
use crate::time;

verus! {

/// A number of seconds, in units of `2^-1074`, as a count of nanoseconds: the
/// nearest one, or the longest delay from `2^64` seconds on.
pub open spec fn as_nanos(units: nat) -> nat {
    if units >= pow2(1138) {
        time::max_nanos()
    } else {
        rounding::round_half_even(units * 1_000_000_000, pow2(1074))
    }
}

/// A delay of `n` nanoseconds multiplied by a finite factor of `units` units.
pub open spec fn multiplied(n: nat, units: nat) -> nat {
    as_nanos(
        rounding::nearest(
            float::seconds(n / 1_000_000_000, n % 1_000_000_000) * units,
            pow2(1074),
        ),
    )
}

/// A delay of `n` nanoseconds multiplied by `factor`.
pub open spec fn scaled(n: nat, factor: Binary64) -> nat {
    if factor.nan() || !factor.positive() || n == 0 {
        0
    } else if factor.infinite() {
        time::max_nanos()
    } else {
        multiplied(n, factor.units())
    }
}

/// Multiply a delay by a factor, saturating instead of failing.
///
/// * A factor that is NaN or not above zero, and a zero delay, give zero.
/// * A product that no delay can hold gives the longest one.
pub fn saturating_mul_f64(base: Duration, factor: Binary64) -> (r: Duration)
    ensures
        time::nanos(r) == scaled(time::nanos(base), factor),
{
    let n: u128 = time::total_nanos(base);
    if factor.is_nan() || !factor.is_positive() || n == 0 {
        return time::zero();
    }
    if factor.is_infinite() {
        return time::longest();
    }
    time::from_total_nanos(multiply(base, factor))
}

/// The product of a delay and a finite factor that is not negative.
pub(crate) fn multiply(base: Duration, factor: Binary64) -> (r: u128)
    requires
        factor.magnitude(),
    ensures
        r == multiplied(time::nanos(base), factor.units()),
        r <= time::max_nanos(),
{
    let whole: u64 = base.as_secs();
    let part: u32 = base.subsec_nanos();
    proof {
        rounding::lemma_round_parts(time::nanos(base), 1_000_000_000, whole as nat, part as nat);
    }
    let secs: Binary64 = float::as_secs(whole, part);
    let product: Binary64 = float::product(secs, factor);
    float::to_nanos(product)
}

} // verus!
