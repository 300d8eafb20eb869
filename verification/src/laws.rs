//! What holds of the library as a whole.
use core::ops::ControlFlow;
use core::time::Duration;
use vstd::arithmetic::power2::pow2;
use vstd::prelude::*;

use crate::float;
use crate::float::Binary64;
use crate::clock::Clock;
use crate::exec;
use crate::exec::{Host, RetryError};
use crate::jitter;
use crate::jitter::{Jitter, NoJitter, SplitMix64};
use crate::policy;
use crate::policy::{
    BackoffPolicy, Call, Constant, ExponentialBackoff, MaxAttempts, MaxElapsedTime, WithMaxDelay,
};
use crate::rounding;
use crate::time;
use crate::util;

verus! {

/// The seconds of a delay, converted to floating point, are off by at most two
/// and a half parts in `2^53`.
proof fn lemma_seconds_error(n: nat)
    ensures
        ({
            let x = n * pow2(1074);
            let e = 1_000_000_000 * float::seconds(n / 1_000_000_000, n % 1_000_000_000) - x;
            -5 * x <= 2 * (pow2(53) * e) <= 5 * x
        }),
{
    let one = pow2(1074);
    let q = pow2(53);
    let (secs, sub) = (n / 1_000_000_000, n % 1_000_000_000);
    vstd::arithmetic::power2::lemma2_to64();
    vstd::arithmetic::power2::lemma2_to64_rest();
    rounding::lemma_pow2_mono(128, 1074);
    vstd::arithmetic::power2::lemma_pow2_adds(64, 64);
    let x = n * one;
    let xs = secs * one;
    let xn = sub * one;
    assert(x == 1_000_000_000 * xs + xn) by (nonlinear_arith)
        requires
            x == n * one,
            xs == secs * one,
            xn == sub * one,
            n == 1_000_000_000 * secs + sub,
    ;
    assert(secs == 0 ==> xs == 0) by (nonlinear_arith)
        requires
            xs == secs * one,
    ;
    assert(secs > 0 ==> xs >= one) by (nonlinear_arith)
        requires
            xs == secs * one,
    ;
    assert(sub == 0 ==> xn == 0) by (nonlinear_arith)
        requires
            xn == sub * one,
    ;
    assert(sub > 0 ==> xn >= one) by (nonlinear_arith)
        requires
            xn == sub * one,
    ;
    let a = rounding::nearest(xs, 1);
    let b = rounding::nearest(xn, 1_000_000_000);
    rounding::lemma_relative_error(xs, 1);
    rounding::lemma_relative_error(xn, 1_000_000_000);
    if secs > 0 {
        rounding::lemma_nearest_lower(xs, 1, 1074);
    } else if sub > 0 {
        vstd::arithmetic::power2::lemma_pow2_adds(30, 52);
        rounding::lemma_nearest_lower(xn, 1_000_000_000, 52);
    } else {
        rounding::lemma_nearest_zero(1);
        rounding::lemma_nearest_zero(1_000_000_000);
    }
    let s = rounding::nearest(a + b, 1);
    rounding::lemma_relative_error(a + b, 1);
    let e1 = 1_000_000_000 * (a + b) - x;
    let e2 = s - (a + b);
    assert(-x <= q * e1 <= x) by (nonlinear_arith)
        requires
            e1 == 1_000_000_000 * (a - xs) + (b * 1_000_000_000 - xn),
            x == 1_000_000_000 * xs + xn,
            -xs <= q * (a - xs) <= xs,
            -xn <= q * (b * 1_000_000_000 - xn) <= xn,
    ;
    assert(2 * e1 <= x) by (nonlinear_arith)
        requires
            q * e1 <= x,
            q >= 2,
            x >= 0,
    ;
    let e = 1_000_000_000 * s - x;
    assert(q * e == 1_000_000_000 * (q * e2) + q * e1) by (nonlinear_arith)
        requires
            e == 1_000_000_000 * e2 + e1,
    ;
}

/// A delay multiplied by a factor is the exact product, up to half a
/// nanosecond and one part in `2^51`, unless it saturates.
pub proof fn law_product_accuracy(n: nat, factor: Binary64)
    requires
        factor.finite(),
        factor.positive(),
        util::scaled(n, factor) < time::max_nanos(),
    ensures
        ({
            let exact = n * factor.units();
            let error = util::scaled(n, factor) * pow2(1074) - exact;
            -(pow2(51) * pow2(1073) + exact) <= pow2(51) * error <= pow2(51) * pow2(1073) + exact
        }),
{
    let u = factor.units();
    let one = pow2(1074);
    let half = pow2(1073);
    let q = pow2(53);
    let c = pow2(51);
    let exact = n * u;
    vstd::arithmetic::power2::lemma2_to64();
    vstd::arithmetic::power2::lemma2_to64_rest();
    rounding::lemma_pow2_mono(128, 1073);
    vstd::arithmetic::power2::lemma_pow2_adds(64, 64);
    vstd::arithmetic::power2::lemma_pow2_unfold(1074);
    if n == 0 {
        assert(exact == 0 && 0 * one == 0) by (nonlinear_arith)
            requires
                exact == n * u,
                n == 0,
        ;
        assert(c * half >= 0) by (nonlinear_arith);
        assert(c * 0 == 0) by (nonlinear_arith);
        return;
    }
    let s = float::seconds(n / 1_000_000_000, n % 1_000_000_000);
    let x = n * one;
    let su = s * u;
    let p = rounding::nearest(su, one);
    let r = rounding::round_half_even(p * 1_000_000_000, one);
    lemma_seconds_error(n);
    let es = 1_000_000_000 * s - x;
    let xu = x * u;
    assert(xu == exact * one) by (nonlinear_arith)
        requires
            xu == x * u,
            x == n * one,
            exact == n * u,
    ;
    // The product of the converted delay and the factor.
    let e1 = 1_000_000_000 * su - xu;
    assert(q * e1 == (q * es) * u) by (nonlinear_arith)
        requires
            e1 == 1_000_000_000 * (s * u) - x * u,
            es == 1_000_000_000 * s - x,
    ;
    assert(-5 * xu <= 2 * (q * e1) <= 5 * xu) by (nonlinear_arith)
        requires
            q * e1 == (q * es) * u,
            -5 * x <= 2 * (q * es) <= 5 * x,
            xu == x * u,
            u >= 0,
    ;
    assert(-xu <= 4 * e1 <= xu) by (nonlinear_arith)
        requires
            -5 * xu <= 2 * (q * e1) <= 5 * xu,
            q >= 10,
    ;
    let error = r * one - exact;
    rounding::lemma_round_error(p * 1_000_000_000, one);
    if one * pow2(52) <= su {
        rounding::lemma_relative_error(su, one);
        let e2 = p * one - su;
        let t = 1_000_000_000 * (p * one) - xu;
        assert(q * t == 1_000_000_000 * (q * e2) + q * e1) by (nonlinear_arith)
            requires
                t == 1_000_000_000 * e2 + e1,
        ;
        assert(-4 * xu <= q * t <= 4 * xu);
        let er = r * one - p * 1_000_000_000;
        assert(error * one == er * one + t) by (nonlinear_arith)
            requires
                error == r * one - exact,
                xu == exact * one,
                er == r * one - p * 1_000_000_000,
                t == 1_000_000_000 * (p * one) - xu,
        ;
        assert(c * error <= c * half + exact && -(c * half + exact) <= c * error)
            by (nonlinear_arith)
            requires
                error * one == er * one + t,
                -4 * xu <= q * t <= 4 * xu,
                q == 4 * c,
                xu == exact * one,
                -half <= er <= half,
                one > 0,
                c > 0,
        {
            assert(4 * (c * t) == q * t);
            assert(c * t <= exact * one);
            assert(-(exact * one) <= c * t);
            assert((c * error) * one == (c * er) * one + c * t);
            assert(c * er <= c * half);
            assert(-(c * half) <= c * er);
            assert((c * er) * one <= (c * half) * one);
            assert(-((c * half) * one) <= (c * er) * one);
            assert((c * error) * one <= (c * half + exact) * one);
            assert(-((c * half + exact) * one) <= (c * error) * one);
        }
    } else {
        rounding::lemma_nearest_upper(su, one, 52);
        rounding::lemma_round_parts(p * 1_000_000_000, one, 0, p * 1_000_000_000);
        assert(exact <= half) by (nonlinear_arith)
            requires
                exact * one <= 2 * (1_000_000_000 * su),
                su <= one * pow2(52),
                2 * (1_000_000_000 * pow2(52)) <= half,
                one > 0,
        ;
        assert(c * exact <= c * half) by (nonlinear_arith)
            requires
                exact <= half,
        ;
        assert(0 * one == 0) by (nonlinear_arith);
        assert(c * -exact == -(c * exact)) by (nonlinear_arith);
    }
}

/// A product of at most `2^90` nanoseconds does not saturate.
proof fn lemma_unsaturated(n: nat, factor: Binary64)
    requires
        factor.finite(),
        factor.positive(),
        n * factor.units() <= pow2(90) * pow2(1074),
    ensures
        util::scaled(n, factor) < time::max_nanos(),
{
    let u = factor.units();
    let one = pow2(1074);
    let s = float::seconds(n / 1_000_000_000, n % 1_000_000_000);
    let x = n * one;
    let q = pow2(53);
    vstd::arithmetic::power2::lemma2_to64();
    vstd::arithmetic::power2::lemma2_to64_rest();
    vstd::arithmetic::power2::lemma_pow2_adds(62, 28);
    vstd::arithmetic::power2::lemma_pow2_adds(62, 1074);
    rounding::lemma_pow2_mono(0, 1074);
    vstd::arithmetic::power2::lemma_pow2_strictly_increases(1136, 1138);
    lemma_seconds_error(n);
    let es = 1_000_000_000 * s - x;
    assert(2 * es <= x) by (nonlinear_arith)
        requires
            2 * (q * es) <= 5 * x,
            q >= 5,
            x >= 0,
    ;
    assert(s * u <= one * pow2(1136)) by (nonlinear_arith)
        requires
            2 * (1_000_000_000 * s) <= 3 * (n * one),
            n * u <= pow2(90) * one,
            pow2(90) == pow2(62) * 0x1000_0000,
            pow2(1136) == pow2(62) * one,
    {
        assert(2 * (1_000_000_000 * (s * u)) <= 3 * ((n * u) * one));
        assert((n * u) * one <= (pow2(62) * 0x1000_0000 * one) * one);
        assert(one * pow2(1136) == (pow2(62) * one) * one);
    }
    rounding::lemma_nearest_upper(s * u, one, 1136);
    let p = rounding::nearest(s * u, one);
    assert(p * 1_000_000_000 <= (pow2(62) * 1_000_000_000) * one) by (nonlinear_arith)
        requires
            p <= pow2(62) * one,
    ;
    rounding::lemma_round_upper(p * 1_000_000_000, one, pow2(62) * 1_000_000_000);
}

/// A whole multiplier is exact while the delays stay below `2^50` nanoseconds
/// (about thirteen days).
pub proof fn law_whole_multiplier_is_exact(n: nat, times: nat, factor: Binary64)
    requires
        factor.finite(),
        factor.positive(),
        factor.units() == times * pow2(1074),
        n * times < pow2(50),
    ensures
        util::scaled(n, factor) == n * times,
{
    let one = pow2(1074);
    let c = pow2(51);
    let exact = n * factor.units();
    let r = util::scaled(n, factor);
    let m = n * times;
    vstd::arithmetic::power2::lemma2_to64_rest();
    rounding::lemma_pow2_mono(50, 90);
    rounding::lemma_pow2_mono(0, 1073);
    vstd::arithmetic::power2::lemma_pow2_unfold(1074);
    assert(exact == m * one) by (nonlinear_arith)
        requires
            exact == n * (times * one),
            m == n * times,
    ;
    assert(exact <= pow2(90) * one) by (nonlinear_arith)
        requires
            exact == m * one,
            m <= pow2(90),
    ;
    lemma_unsaturated(n, factor);
    law_product_accuracy(n, factor);
    let d = r - m;
    let error = r * one - exact;
    assert(c * error == (c * d) * one) by (nonlinear_arith)
        requires
            error == r * one - m * one,
            d == r - m,
    ;
    assert(c * pow2(1073) + exact < c * one) by (nonlinear_arith)
        requires
            exact == m * one,
            2 * m < c,
            one == 2 * pow2(1073),
            pow2(1073) > 0,
    ;
    assert(-1 < d < 1) by (nonlinear_arith)
        requires
            (c * d) * one < c * one,
            -(c * one) < (c * d) * one,
            c > 0,
            one > 0,
    ;
}

/// Whether a delay of `n` nanoseconds survives the way to seconds and back.
spec fn survives(n: nat) -> bool {
    util::as_nanos(float::seconds(n / 1_000_000_000, n % 1_000_000_000)) == n
}

/// Whole seconds of at most 53 bits are converted exactly, and the part of a
/// second is off by at most one part in `2^54` of a second.
proof fn lemma_seconds_parts(secs: nat, sub: nat)
    requires
        secs <= pow2(53),
        sub < 1_000_000_000,
    ensures
        rounding::nearest(secs * pow2(1074), 1) == secs * pow2(1074),
        ({
            let b = rounding::nearest(sub * pow2(1074), 1_000_000_000);
            let e = 2 * (1_000_000_000 * b - sub * pow2(1074));
            &&& b <= pow2(1074)
            &&& -(1_000_000_000 * pow2(1021)) <= e <= 1_000_000_000 * pow2(1021)
        }),
{
    let one = pow2(1074);
    let num = sub * one;
    rounding::lemma_nearest_exact(secs, 1074);
    rounding::lemma_pow2_mono(0, 1074);
    assert(num < 1_000_000_000 * one) by (nonlinear_arith)
        requires
            num == sub * one,
            sub < 1_000_000_000,
            one > 0,
    ;
    let k = rounding::lemma_scale_exists(num, 1_000_000_000);
    rounding::lemma_scale_mono(num, 1_000_000_000, k, 1021);
    rounding::lemma_pow2_mono(k, 1021);
    rounding::lemma_nearest_error(num, 1_000_000_000, k);
    rounding::lemma_nearest_upper(num, 1_000_000_000, 1074);
}

/// Up to `2^23` seconds, less than half a nanosecond is lost on the way to
/// seconds, so that every delay survives.
proof fn lemma_short_survives(n: nat)
    requires
        n <= 8_388_608_000_000_000,
    ensures
        survives(n),
{
    let one = pow2(1074);
    let (secs, sub) = (n / 1_000_000_000, n % 1_000_000_000);
    vstd::arithmetic::power2::lemma2_to64();
    vstd::arithmetic::power2::lemma2_to64_rest();
    lemma_seconds_parts(secs, sub);
    let a = secs * one;
    let b = rounding::nearest(sub * one, 1_000_000_000);
    let t = a + b;
    let s = rounding::nearest(t, 1);
    vstd::arithmetic::power2::lemma_pow2_adds(23, 1074);
    vstd::arithmetic::power2::lemma_pow2_adds(30, 1044);
    vstd::arithmetic::power2::lemma_pow2_adds(23, 1021);
    vstd::arithmetic::power2::lemma_pow2_strictly_increases(1097, 1138);
    rounding::lemma_pow2_mono(0, 1021);
    if sub == 0 {
        assert(sub * one == 0) by (nonlinear_arith)
            requires
                sub == 0,
        ;
        rounding::lemma_nearest_zero(1_000_000_000);
    }
    assert(t <= 0x80_0000 * one) by (nonlinear_arith)
        requires
            t == secs * one + b,
            b <= one,
            secs + 1 <= 0x80_0000 || (secs == 0x80_0000 && b == 0),
            one > 0,
    ;
    assert(t <= pow2(1097));
    if t == pow2(1097) {
        assert(1 * pow2(1097) == t);
        rounding::lemma_nearest_exact(1, 1097);
    } else {
        let k = rounding::lemma_scale_exists(t, 1);
        rounding::lemma_scale_mono(t, 1, k, 1044);
        rounding::lemma_pow2_mono(k, 1044);
        rounding::lemma_nearest_error(t, 1, k);
    }
    assert(-pow2(1044) <= 2 * (s - t) <= pow2(1044));
    assert(n * one == 1_000_000_000 * a + sub * one) by (nonlinear_arith)
        requires
            a == secs * one,
            n == 1_000_000_000 * secs + sub,
    ;
    rounding::lemma_nearest_upper(t, 1, 1097);
    rounding::lemma_round_close(s * 1_000_000_000, one, n);
}

/// A delay that came from a number of seconds goes back to the same number,
/// beyond `2^23` seconds.
proof fn lemma_long_survives(p: nat, mant: nat, shift: nat)
    requires
        p == mant * pow2(shift),
        mant <= pow2(53),
        shift > 0 ==> pow2(52) <= mant,
        p < pow2(1138),
        util::as_nanos(p) > 8_388_608_000_000_000,
    ensures
        survives(util::as_nanos(p)),
{
    let one = pow2(1074);
    let y = util::as_nanos(p);
    let (secs, sub) = (y / 1_000_000_000, y % 1_000_000_000);
    vstd::arithmetic::power2::lemma2_to64();
    vstd::arithmetic::power2::lemma2_to64_rest();
    rounding::lemma_pow2_mono(0, 1021);
    rounding::lemma_pow2_mono(1021, 1074);
    rounding::lemma_round_error(p * 1_000_000_000, one);
    // The number lies beyond 2^23 seconds itself, so it has a scale above 1044.
    vstd::arithmetic::power2::lemma_pow2_adds(23, 1074);
    assert(p > pow2(1097)) by (nonlinear_arith)
        requires
            2 * (y * one - p * 1_000_000_000) <= one,
            y >= 8_388_608_000_000_001,
            pow2(1097) == 8_388_608 * one,
            one > 0,
    ;
    if shift <= 1044 {
        rounding::lemma_pow2_mono(shift, 1044);
        vstd::arithmetic::power2::lemma_pow2_adds(53, 1044);
        assert(p <= pow2(53) * pow2(1044)) by (nonlinear_arith)
            requires
                p == mant * pow2(shift),
                mant <= pow2(53),
                pow2(shift) <= pow2(1044),
        ;
        assert(false);
    }
    if shift >= 1074 {
        let c = mant * pow2((shift - 1074) as nat);
        vstd::arithmetic::power2::lemma_pow2_adds((shift - 1074) as nat, 1074);
        assert((shift - 1074) as nat + 1074 == shift);
        assert(p == c * one) by (nonlinear_arith)
            requires
                p == mant * pow2(shift),
                pow2(shift) == pow2((shift - 1074) as nat) * one,
                c == mant * pow2((shift - 1074) as nat),
        ;
        lemma_whole_survives(c, mant, shift);
    } else if mant == pow2(52) {
        vstd::arithmetic::power2::lemma_pow2_adds(52, shift);
        let c = pow2((shift - 1022) as nat);
        vstd::arithmetic::power2::lemma_pow2_adds((shift - 1022) as nat, 1074);
        assert((shift - 1022) as nat + 1074 == 52 + shift);
        lemma_whole_survives(c, mant, shift);
    } else if mant == pow2(53) {
        vstd::arithmetic::power2::lemma_pow2_adds(53, shift);
        let c = pow2((shift - 1021) as nat);
        vstd::arithmetic::power2::lemma_pow2_adds((shift - 1021) as nat, 1074);
        assert((shift - 1021) as nat + 1074 == 53 + shift);
        lemma_whole_survives(c, mant, shift);
    } else {
        let q = pow2(shift);
        // At most 2^53 seconds: the whole seconds are converted exactly.
        vstd::arithmetic::power2::lemma_pow2_adds(53, shift);
        vstd::arithmetic::power2::lemma_pow2_adds(52, shift);
        rounding::lemma_pow2_mono(shift, 1074);
        assert(p * 1_000_000_000 <= (pow2(53) * 1_000_000_000) * one) by (nonlinear_arith)
            requires
                p == mant * q,
                mant <= pow2(53),
                q <= one,
        ;
        rounding::lemma_round_upper(p * 1_000_000_000, one, pow2(53) * 1_000_000_000);
        lemma_seconds_parts(secs, sub);
        let b = rounding::nearest(sub * one, 1_000_000_000);
        let t = secs * one + b;
        assert(y * one == 1_000_000_000 * (secs * one) + sub * one) by (nonlinear_arith)
            requires
                y == 1_000_000_000 * secs + sub,
        ;
        // The sum is less than half a step of the number's scale away from it.
        rounding::lemma_pow2_mono(1045, shift);
        vstd::arithmetic::power2::lemma_pow2_adds(29, 1045);
        vstd::arithmetic::power2::lemma_pow2_adds(24, 1021);
        assert(-q < 2 * (t - p) < q);
        assert((pow2(52) + 1) * q <= p && p <= (pow2(53) - 1) * q) by (nonlinear_arith)
            requires
                p == mant * q,
                pow2(52) + 1 <= mant <= pow2(53) - 1,
        ;
        assert((pow2(52) + 1) * q == pow2(52) * q + q && (pow2(53) - 1) * q == pow2(53) * q - q)
            by (nonlinear_arith);
        assert(rounding::is_scale(t, 1, shift));
        rounding::lemma_nearest_at(t, 1, shift);
        rounding::lemma_round_close(t, 1 * q, mant);
    }
}

/// A whole number of seconds that a delay came from is found again.
proof fn lemma_whole_survives(c: nat, mant: nat, shift: nat)
    requires
        mant <= pow2(53),
        c * pow2(1074) == mant * pow2(shift),
        c * pow2(1074) < pow2(1138),
    ensures
        survives(util::as_nanos(c * pow2(1074))),
{
    let one = pow2(1074);
    let p = c * one;
    rounding::lemma_pow2_mono(0, 1074);
    assert(p * 1_000_000_000 == (c * 1_000_000_000) * one) by (nonlinear_arith)
        requires
            p == c * one,
    ;
    rounding::lemma_round_parts(p * 1_000_000_000, one, c * 1_000_000_000, 0);
    rounding::lemma_round_parts(c * 1_000_000_000, 1_000_000_000, c, 0);
    rounding::lemma_nearest_exact(mant, shift);
    assert(0 * one == 0) by (nonlinear_arith);
    rounding::lemma_nearest_zero(1_000_000_000);
}

/// A delay that survives the way to seconds and back is not shortened by a
/// finite multiplier of at least one.
proof fn lemma_surviving_grows(n: nat, factor: Binary64)
    requires
        survives(n),
        n <= time::max_nanos(),
        factor.finite(),
        factor.positive(),
        factor.units() >= pow2(1074),
    ensures
        util::scaled(n, factor) >= n,
{
    let one = pow2(1074);
    let u = factor.units();
    let (secs, sub) = (n / 1_000_000_000, n % 1_000_000_000);
    let s = float::seconds(secs, sub);
    let p = rounding::nearest(s * u, one);
    rounding::lemma_pow2_mono(0, 1074);
    let (mant, shift) = rounding::lemma_nearest_form(
        rounding::nearest(secs * one, 1) + rounding::nearest(sub * one, 1_000_000_000),
        1,
    );
    assert(one * (mant * pow2(shift)) <= s * u) by (nonlinear_arith)
        requires
            s == mant * pow2(shift),
            one <= u,
    ;
    rounding::lemma_nearest_above(s * u, one, mant, shift);
    if p < pow2(1138) {
        rounding::lemma_round_mono(s * 1_000_000_000, p * 1_000_000_000, one);
    }
}

/// A delay of up to `2^23` seconds times one is the delay itself.
pub(crate) proof fn lemma_short_times_one(n: nat, factor: Binary64)
    requires
        n <= 8_388_608_000_000_000,
        factor.magnitude(),
        factor.units() == pow2(1074),
        factor.positive(),
    ensures
        util::scaled(n, factor) == n,
{
    let one = pow2(1074);
    let (secs, sub) = (n / 1_000_000_000, n % 1_000_000_000);
    let s = float::seconds(secs, sub);
    lemma_short_survives(n);
    rounding::lemma_pow2_mono(0, 1074);
    let (mant, shift) = rounding::lemma_nearest_form(
        rounding::nearest(secs * one, 1) + rounding::nearest(sub * one, 1_000_000_000),
        1,
    );
    rounding::lemma_nearest_exact(mant, shift);
    assert(s * one == one * s && one == one * 1) by (nonlinear_arith);
    rounding::lemma_nearest_cancel(s, 1, one);
}

/// A product by a finite factor survives, unless it saturates.
proof fn lemma_product_survives(n: nat, factor: Binary64)
    requires
        factor.finite(),
    ensures
        survives(util::scaled(n, factor)) || util::scaled(n, factor) == time::max_nanos(),
{
    let y = util::scaled(n, factor);
    if y <= 8_388_608_000_000_000 {
        lemma_short_survives(y);
    } else {
        let s = float::seconds(n / 1_000_000_000, n % 1_000_000_000);
        let num = s * factor.units();
        rounding::lemma_pow2_mono(0, 1074);
        let (mant, shift) = rounding::lemma_nearest_form(num, pow2(1074));
        let p = rounding::nearest(num, pow2(1074));
        if p < pow2(1138) {
            lemma_long_survives(p, mant, shift);
        }
    }
}

/// A multiplier of at least one never shortens a delay of up to `2^23` seconds
/// (about ninety-seven days). A longer delay may lose a nanosecond to rounding.
pub proof fn law_growth_never_shortens(n: nat, factor: Binary64)
    requires
        n <= 8_388_608_000_000_000,
        factor.positive(),
        factor.infinite() || (factor.finite() && factor.units() >= pow2(1074)),
    ensures
        util::scaled(n, factor) >= n,
{
    if factor.finite() {
        lemma_short_survives(n);
        lemma_surviving_grows(n, factor);
    }
}

/// No product is longer than the longest delay.
pub proof fn law_products_are_delays(n: nat, factor: Binary64)
    ensures
        util::scaled(n, factor) <= time::max_nanos(),
{
    let one = pow2(1074);
    vstd::arithmetic::power2::lemma2_to64();
    vstd::arithmetic::power2::lemma2_to64_rest();
    rounding::lemma_pow2_mono(0, 1074);
    if factor.finite() && factor.positive() && n > 0 {
        let s = float::seconds(n / 1_000_000_000, n % 1_000_000_000);
        let num = s * factor.units();
        let p = rounding::nearest(num, one);
        if p < pow2(1138) {
            let k = rounding::lemma_scale_exists(num, one);
            rounding::lemma_nearest_at(num, one, k);
            let m = rounding::round_half_even(num, one * pow2(k));
            vstd::arithmetic::power2::lemma_pow2_adds(53, k);
            rounding::lemma_pow2_mono(0, k);
            if k >= 1074 {
                let up = pow2((k - 1074) as nat);
                let secs = m * up;
                vstd::arithmetic::power2::lemma_pow2_adds((k - 1074) as nat, 1074);
                vstd::arithmetic::power2::lemma_pow2_adds(64, 1074);
                assert(p == secs * one) by (nonlinear_arith)
                    requires
                        p == m * pow2(k),
                        pow2(k) == up * one,
                        secs == m * up,
                ;
                assert(secs < pow2(64)) by (nonlinear_arith)
                    requires
                        secs * one < pow2(64) * one,
                        one > 0,
                ;
                assert(p * 1_000_000_000 <= (secs * 1_000_000_000) * one) by (nonlinear_arith)
                    requires
                        p == secs * one,
                ;
                rounding::lemma_round_upper(p * 1_000_000_000, one, secs * 1_000_000_000);
            } else {
                let steps = one * pow2(k);
                assert(steps > 0) by (nonlinear_arith)
                    requires
                        one > 0,
                        pow2(k) > 0,
                        steps == one * pow2(k),
                ;
                assert(num <= pow2(53) * steps) by (nonlinear_arith)
                    requires
                        num < one * pow2(53 + k),
                        pow2(53 + k) == pow2(53) * pow2(k),
                        steps == one * pow2(k),
                ;
                rounding::lemma_round_upper(num, steps, pow2(53));
                rounding::lemma_pow2_mono(k, 1074);
                assert(p * 1_000_000_000 <= (pow2(53) * 1_000_000_000) * one) by (nonlinear_arith)
                    requires
                        p == m * pow2(k),
                        m <= pow2(53),
                        pow2(k) <= one,
                ;
                rounding::lemma_round_upper(p * 1_000_000_000, one, pow2(53) * 1_000_000_000);
            }
        }
    }
}

/// A product by a finite factor that exceeds the longest delay by one part in
/// `2^50` saturates.
pub proof fn law_overflow_saturates(n: nat, factor: Binary64)
    requires
        factor.finite(),
        factor.positive(),
        n > 0,
        pow2(50) * (n * factor.units()) >= (pow2(50) + 1) * ((time::max_nanos() + 1) * pow2(1074)),
    ensures
        util::scaled(n, factor) == time::max_nanos(),
{
    law_products_are_delays(n, factor);
    if util::scaled(n, factor) < time::max_nanos() {
        law_product_accuracy(n, factor);
        let one = pow2(1074);
        let half = pow2(1073);
        let exact = n * factor.units();
        let r = util::scaled(n, factor);
        let top = (time::max_nanos() + 1) * one;
        let c = pow2(50);
        vstd::arithmetic::power2::lemma_pow2_unfold(51);
        vstd::arithmetic::power2::lemma2_to64_rest();
        vstd::arithmetic::power2::lemma_pow2_unfold(1074);
        rounding::lemma_pow2_mono(0, 1073);
        let error = r * one - exact;
        assert(r * one + half <= top) by (nonlinear_arith)
            requires
                r + 1 <= time::max_nanos() + 1,
                top == (time::max_nanos() + 1) * one,
                one == 2 * half,
                half > 0,
        ;
        assert(false) by (nonlinear_arith)
            requires
                -(2 * c * half + exact) <= 2 * c * error,
                error == r * one - exact,
                r * one + half <= top,
                c * exact >= (c + 1) * top,
                c >= 2,
                top > 0,
        {
            assert(2 * c * error == 2 * (c * (r * one)) - 2 * (c * exact));
            assert(c * (r * one) + c * half <= c * top);
        }
    }
}

/// The longest delay stays the longest under any multiplier of at least one.
pub proof fn law_longest_is_pinned(factor: Binary64)
    requires
        factor.positive(),
        factor.infinite() || (factor.finite() && factor.units() >= pow2(1074)),
    ensures
        util::scaled(time::max_nanos(), factor) == time::max_nanos(),
{
    if factor.finite() {
        lemma_longest_times(factor);
    }
}

/// The longest delay saturates under a finite multiplier of at least one.
proof fn lemma_longest_times(factor: Binary64)
    requires
        factor.finite(),
        factor.positive(),
        factor.units() >= pow2(1074),
    ensures
        util::scaled(time::max_nanos(), factor) == time::max_nanos(),
{
    let one = pow2(1074);
    let n = time::max_nanos();
    let u = factor.units();
    vstd::arithmetic::power2::lemma2_to64();
    vstd::arithmetic::power2::lemma2_to64_rest();
    rounding::lemma_pow2_mono(0, 1074);
    let secs = 0xffff_ffff_ffff_ffffnat;
    rounding::lemma_round_parts(n, 1_000_000_000, secs, 999_999_999);
    // The seconds round up to 2^64.
    let a = rounding::nearest(secs * one, 1);
    vstd::arithmetic::power2::lemma_pow2_adds(64, 1074);
    vstd::arithmetic::power2::lemma_pow2_adds(63, 1074);
    vstd::arithmetic::power2::lemma_pow2_adds(11, 1074);
    assert(secs * one < 1 * pow2(1138) && 1 * pow2(1137) <= secs * one) by (nonlinear_arith)
        requires
            pow2(1138) == pow2(64) * one,
            pow2(1137) == pow2(63) * one,
            pow2(63) <= secs,
            secs < pow2(64),
            one > 0,
    ;
    rounding::lemma_nearest_at(secs * one, 1, 1085);
    rounding::lemma_round_cancel(secs, 2048, one);
    assert(one * secs == secs * one && one * 2048 == 1 * pow2(1085)) by (nonlinear_arith)
        requires
            pow2(1085) == 2048 * one,
    ;
    rounding::lemma_round_parts(secs, 2048, 0x1f_ffff_ffff_ffff, 2047);
    vstd::arithmetic::power2::lemma_pow2_adds(53, 1085);
    assert(a == pow2(1138));
    let b = rounding::nearest(999_999_999 * one, 1_000_000_000);
    let s = rounding::nearest(a + b, 1);
    rounding::lemma_nearest_lower(a + b, 1, 1138);
    assert(one * pow2(1138) <= s * u) by (nonlinear_arith)
        requires
            pow2(1138) <= s,
            one <= u,
    ;
    rounding::lemma_nearest_lower(s * u, one, 1138);
}

/// Whatever is drawn, a delay of `n` nanoseconds spread by `factor` lies from
/// `n * (1 - factor)`, inclusive, to `n * (1 + factor)`, exclusive.
pub proof fn law_jitter_stays_in_range(
    base: Duration,
    factor: Binary64,
    unit: Binary64,
    r: Duration,
)
    requires
        !jitter::unspread(base, factor),
        jitter::jittered_to(base, factor, unit, r),
    ensures
        ({
            let one = pow2(1074);
            let n = time::nanos(base);
            let f = jitter::capped(factor);
            n * (one - f) <= time::nanos(r) * one < n * (one + f)
        }),
{
    let one = pow2(1074);
    let n = time::nanos(base);
    let f = jitter::capped(factor);
    let d = time::nanos(r);
    rounding::lemma_pow2_mono(0, 1074);
    if factor.finite() {
        factor.lemma_positive_units();
    }
    assert(0 < f <= one);
    let x = n * f;
    assert(0 < x && n * (one - f) == n * one - x && n * (one + f) == n * one + x)
        by (nonlinear_arith)
        requires
            x == n * f,
            n > 0,
            f > 0,
    ;
    if d == n {
    } else {
        let low = x / one;
        let high = ((x - 1) as nat) / one;
        vstd::arithmetic::div_mod::lemma_fundamental_div_mod(x as int, one as int);
        vstd::arithmetic::div_mod::lemma_fundamental_div_mod(x - 1, one as int);
        assert(x <= n * one) by (nonlinear_arith)
            requires
                x == n * f,
                f <= one,
        ;
        assert(low <= n) by (nonlinear_arith)
            requires
                x == one * low + x % one,
                x <= n * one,
                one > 0,
        ;
        assert(n - low <= d <= n + high);
        assert(n * one - x <= d * one) by (nonlinear_arith)
            requires
                x == one * low + x % one,
                n - low <= d,
                one > 0,
        ;
        assert(d * one < n * one + x) by (nonlinear_arith)
            requires
                x - 1 == one * high + (x - 1) % (one as int),
                (x - 1) % (one as int) >= 0,
                d <= n + high,
                one > 0,
        ;
    }
}

/// The midpoint draw stands for a scale of one: `(1 - f) + 0.5 * 2f` rounds to
/// `1`, whatever the factor.
pub proof fn law_midpoint_scale_is_one(factor: Binary64)
    requires
        factor.nan() || factor.positive(),
    ensures
        jitter::jitter_scale(jitter::capped(factor), pow2(1073)) == pow2(1074),
{
    let one = pow2(1074);
    let f = jitter::capped(factor);
    vstd::arithmetic::power2::lemma2_to64_rest();
    vstd::arithmetic::power2::lemma_pow2_unfold(1074);
    rounding::lemma_pow2_mono(0, 1073);
    // The draw times twice the factor is the factor itself.
    let twice = pow2(1073) * (2 * f);
    assert(twice == one * f && one == one * 1) by (nonlinear_arith)
        requires
            twice == pow2(1073) * (2 * f),
            one == 2 * pow2(1073),
    ;
    rounding::lemma_nearest_cancel(f, 1, one);
    if factor.finite() && factor.units() < one {
        rounding::lemma_nearest_exact(factor.mantissa(), factor.shift());
    } else {
        vstd::arithmetic::power2::lemma_pow2_adds(52, 1022);
        rounding::lemma_nearest_exact(pow2(52), 1022);
    }
    assert(rounding::nearest(twice, one) == f);
    // One minus the factor is off by at most a quarter of the last place of one.
    let d = (one - f) as nat;
    let near = rounding::nearest(d, 1);
    let k = rounding::lemma_scale_exists(d, 1);
    rounding::lemma_nearest_error(d, 1, k);
    let h = pow2(1020);
    vstd::arithmetic::power2::lemma_pow2_unfold(1021);
    vstd::arithmetic::power2::lemma_pow2_unfold(1022);
    vstd::arithmetic::power2::lemma_pow2_adds(53, 1021);
    vstd::arithmetic::power2::lemma_pow2_adds(52, 1021);
    vstd::arithmetic::power2::lemma_pow2_adds(52, 1022);
    vstd::arithmetic::power2::lemma_pow2_adds(53, 1022);
    rounding::lemma_pow2_mono(0, 1020);
    if factor.finite() && factor.units() < one {
        factor.lemma_positive_units();
    }
    assert(0 < f);
    rounding::lemma_scale_mono(d, 1, k, 1021);
    rounding::lemma_pow2_mono(k, 1021);
    let x = near + f;
    assert(one - h <= x <= one + h);
    if x >= one {
        rounding::lemma_nearest_at(x, 1, 1022);
        rounding::lemma_round_parts(x, 1 * pow2(1022), pow2(52), (x - one) as nat);
    } else {
        rounding::lemma_nearest_at(x, 1, 1021);
        assert((pow2(53) - 1) * pow2(1021) == one - 2 * h) by (nonlinear_arith)
            requires
                one == pow2(53) * pow2(1021),
                pow2(1021) == 2 * h,
        ;
        rounding::lemma_round_parts(
            x,
            1 * pow2(1021),
            (pow2(53) - 1) as nat,
            (x - (one - 2 * h)) as nat,
        );
        assert((pow2(53) - 1) as nat % 2 == 1);
    }
}

/// A source that adds no randomness leaves every delay as it is.
pub proof fn law_no_jitter_keeps_delays(
    pre: NoJitter,
    post: NoJitter,
    base: Duration,
    factor: Binary64,
    r: Duration,
)
    requires
        jitter::applies(&pre, &post, base, factor, r),
    ensures
        r == base,
{
    if !jitter::unspread(base, factor) {
        let unit = choose|unit: Binary64| #[trigger]
            NoJitter::draws(&pre, &post, unit) && jitter::in_unit_range(unit) && jitter::jittered_to(
                base,
                factor,
                unit,
                r,
            );
        vstd::arithmetic::power2::lemma2_to64_rest();
        vstd::arithmetic::power2::lemma_pow2_adds(52, 1021);
    }
}

/// Two generators in the same state yield the same value and end up in the
/// same state, whatever that state is.
pub proof fn law_generator_is_reproducible(
    a: SplitMix64,
    a_post: SplitMix64,
    x: Binary64,
    b: SplitMix64,
    b_post: SplitMix64,
    y: Binary64,
)
    requires
        a.state() == b.state(),
        SplitMix64::draws(&a, &a_post, x),
        SplitMix64::draws(&b, &b_post, y),
    ensures
        a_post.state() == b_post.state(),
        x.bits() == y.bits(),
        jitter::in_unit_range(x),
{
    x.lemma_unique(y);
    let top = (jitter::mixed(a_post.state()) / 2048) as nat;
    vstd::arithmetic::power2::lemma2_to64_rest();
    vstd::arithmetic::power2::lemma_pow2_adds(53, 1021);
    rounding::lemma_pow2_mono(0, 1021);
    assert(top * pow2(1021) < pow2(53) * pow2(1021)) by (nonlinear_arith)
        requires
            top < pow2(53),
            pow2(1021) > 0,
    ;
}

/// A constant policy hands out its one delay forever: after any number of
/// calls it is as it was, and it never stops.
pub proof fn law_constant_is_constant(states: Seq<Constant>, delays: Seq<Duration>, j: int)
    requires
        policy::hands_out(states, delays),
        0 <= j < states.len(),
    ensures
        states[j] == states[0],
        j > 0 ==> delays[j - 1] == states[0].delay(),
        policy::endless::<Constant>(),
    decreases j,
{
    if j > 0 {
        law_constant_is_constant(states, delays, j - 1);
        assert(Constant::advances(&states[j - 1], &states[j], Some(delays[j - 1])));
    }
}

/// An interval of `n` nanoseconds after `calls` multiplications.
pub open spec fn interval_after(n: nat, multiplier: Binary64, calls: nat) -> nat
    decreases calls,
{
    if calls == 0 || policy::no_growth(multiplier) {
        n
    } else {
        util::scaled(interval_after(n, multiplier, (calls - 1) as nat), multiplier)
    }
}

/// An interval that has reached the longest delay stays there, unless the
/// multiplier is below one.
pub proof fn law_pinned_interval_stays(multiplier: Binary64, calls: nat)
    requires
        policy::no_growth(multiplier) || multiplier.units() >= pow2(1074),
    ensures
        interval_after(time::max_nanos(), multiplier, calls) == time::max_nanos(),
    decreases calls,
{
    if calls > 0 {
        law_pinned_interval_stays(multiplier, (calls - 1) as nat);
        if !policy::no_growth(multiplier) {
            law_longest_is_pinned(multiplier);
        }
    }
}

/// An interval after some multiplications is not longer than after more of
/// them, saturation included, where the multiplier is at least one or stands
/// for no growth and the first interval is at most `2^23` seconds.
pub proof fn law_intervals_never_shrink(n: nat, multiplier: Binary64, calls: nat, later: nat)
    requires
        n <= 8_388_608_000_000_000,
        policy::no_growth(multiplier) || multiplier.units() >= pow2(1074),
        calls <= later,
    ensures
        interval_after(n, multiplier, calls) <= interval_after(n, multiplier, later),
    decreases later,
{
    if calls < later && !policy::no_growth(multiplier) {
        let less = (later - 1) as nat;
        law_intervals_never_shrink(n, multiplier, calls, less);
        let x = interval_after(n, multiplier, less);
        lemma_intervals_survive(n, multiplier, less);
        if x == time::max_nanos() {
            law_longest_is_pinned(multiplier);
        } else {
            lemma_surviving_grows(x, multiplier);
        }
    }
}

/// From a start of at most `2^23` seconds, every interval survives the way to
/// seconds and back, up to the longest delay.
proof fn lemma_intervals_survive(n: nat, multiplier: Binary64, calls: nat)
    requires
        n <= 8_388_608_000_000_000,
        !policy::no_growth(multiplier),
    ensures
        ({
            let x = interval_after(n, multiplier, calls);
            x <= time::max_nanos() && (survives(x) || x == time::max_nanos())
        }),
{
    if calls == 0 {
        lemma_short_survives(n);
    } else {
        let x = interval_after(n, multiplier, (calls - 1) as nat);
        law_products_are_delays(x, multiplier);
        lemma_product_survives(x, multiplier);
    }
}

/// Doubling a delay, or more, falls short of twice the delay by at most one
/// part in `2^41`, unless it saturates.
proof fn lemma_at_least_doubled(n: nat, factor: Binary64)
    requires
        n > 0,
        factor.finite(),
        factor.positive(),
        factor.units() >= 2 * pow2(1074),
        util::scaled(n, factor) < time::max_nanos(),
    ensures
        pow2(40) * util::scaled(n, factor) >= n * (pow2(41) - 1),
{
    let h = pow2(1073);
    let s = util::scaled(n, factor);
    let exact = n * factor.units();
    vstd::arithmetic::power2::lemma2_to64();
    vstd::arithmetic::power2::lemma2_to64_rest();
    vstd::arithmetic::power2::lemma_pow2_unfold(1074);
    rounding::lemma_pow2_mono(0, 1073);
    law_product_accuracy(n, factor);
    let q = pow2(51);
    let one = pow2(1074);
    assert(exact >= 4 * (n * h)) by (nonlinear_arith)
        requires
            exact == n * factor.units(),
            factor.units() >= 2 * one,
            one == 2 * h,
    ;
    assert(q * (s * one - exact) == 2 * (q * s) * h - q * exact) by (nonlinear_arith)
        requires
            one == 2 * h,
    ;
    assert((q - 1) * exact >= (q - 1) * (4 * (n * h))) by (nonlinear_arith)
        requires
            exact >= 4 * (n * h),
            q >= 1,
    ;
    assert((q - 1) * exact == q * exact - exact) by (nonlinear_arith);
    assert((q - 1) * (4 * (n * h)) == (4 * (q * n) - 4 * n) * h) by (nonlinear_arith);
    assert((2 * (q * s) - 4 * (q * n) + 4 * n + q) * h >= 0) by (nonlinear_arith)
        requires
            2 * (q * s) * h >= (4 * (q * n) - 4 * n) * h - q * h,
    ;
    assert(2 * (q * s) - 4 * (q * n) + 4 * n + q >= 0) by (nonlinear_arith)
        requires
            (2 * (q * s) - 4 * (q * n) + 4 * n + q) * h >= 0,
            h > 0,
    ;
    // From here on the powers are numbers, and everything is linear.
    assert(q == 0x8_0000_0000_0000 && pow2(40) == 0x100_0000_0000 && pow2(41)
        == 0x200_0000_0000);
    assert(q * s == 0x8_0000_0000_0000 * s && q * n == 0x8_0000_0000_0000 * n);
    assert(pow2(40) * s == 0x100_0000_0000 * s && n * (pow2(41) - 1) == 0x1ff_ffff_ffff * n);
    if n < 0x2_0000_0000_0000 {
        assert(s >= 2 * n);
    }
}

/// While it does not saturate, an interval that is at least doubled grows like
/// the powers of two, short of them by one part in `2^41` for every step.
proof fn lemma_doubling(n: nat, multiplier: Binary64, calls: nat)
    requires
        0 < n <= time::max_nanos(),
        multiplier.finite(),
        multiplier.positive(),
        multiplier.units() >= 2 * pow2(1074),
        calls <= 94,
    ensures
        ({
            let x = interval_after(n, multiplier, calls);
            x == time::max_nanos() || pow2(41) * x >= pow2(calls) * (pow2(41) - calls)
        }),
    decreases calls,
{
    vstd::arithmetic::power2::lemma2_to64();
    vstd::arithmetic::power2::lemma2_to64_rest();
    if calls == 0 {
        assert(interval_after(n, multiplier, 0) == n);
    } else {
        let less = (calls - 1) as nat;
        lemma_doubling(n, multiplier, less);
        let p = pow2(less);
        let x = interval_after(n, multiplier, less);
        let y = util::scaled(x, multiplier);
        assert(interval_after(n, multiplier, calls) == y);
        vstd::arithmetic::power2::lemma_pow2_unfold(calls);
        vstd::arithmetic::power2::lemma_pow2_unfold(1074);
        rounding::lemma_pow2_mono(0, less);
        law_products_are_delays(x, multiplier);
        if x == time::max_nanos() {
            law_longest_is_pinned(multiplier);
        } else if y < time::max_nanos() {
            let t = pow2(41);
            assert(x > 0) by (nonlinear_arith)
                requires
                    t * x >= p * (t - less),
                    p >= 1,
                    t > less,
            ;
            lemma_at_least_doubled(x, multiplier);
            // 2^41 * y >= 2x * (2^41 - 1) >= 2p * (2^41 - less) * (2^41 - 1) / 2^41
            assert(t * (t * y) >= 2 * (t * x) * (t - 1)) by (nonlinear_arith)
                requires
                    t == 2 * pow2(40),
                    pow2(40) * y >= x * (t - 1),
            ;
            assert(2 * (t * x) * (t - 1) >= 2 * (p * (t - less)) * (t - 1)) by (nonlinear_arith)
                requires
                    t * x >= p * (t - less),
                    t >= 1,
            ;
            assert(2 * (p * (t - less)) * (t - 1) >= t * (2 * p * (t - calls))) by (nonlinear_arith)
                requires
                    calls == less + 1,
                    p >= 1,
                    t > less,
                    less >= 0,
            ;
            assert(t * y >= 2 * p * (t - calls)) by (nonlinear_arith)
                requires
                    t * (t * y) >= t * (2 * p * (t - calls)),
                    t > 0,
            ;
        }
    }
}

/// Whatever a backoff starts from, unless it is zero, a multiplier of at least
/// two takes its interval to the longest delay within 94 multiplications.
pub proof fn law_doubling_reaches_the_longest(n: nat, multiplier: Binary64, calls: nat)
    requires
        0 < n <= time::max_nanos(),
        multiplier.finite(),
        multiplier.positive(),
        multiplier.units() >= 2 * pow2(1074),
        calls >= 94,
    ensures
        interval_after(n, multiplier, calls) == time::max_nanos(),
    decreases calls,
{
    vstd::arithmetic::power2::lemma2_to64();
    vstd::arithmetic::power2::lemma2_to64_rest();
    vstd::arithmetic::power2::lemma_pow2_adds(47, 47);
    if calls == 94 {
        lemma_doubling(n, multiplier, calls);
        law_products_are_delays(interval_after(n, multiplier, 93), multiplier);
        assert(pow2(94) * (pow2(41) - 94) > pow2(41) * time::max_nanos());
    } else {
        law_doubling_reaches_the_longest(n, multiplier, (calls - 1) as nat);
        vstd::arithmetic::power2::lemma_pow2_unfold(1074);
        law_longest_is_pinned(multiplier);
    }
}

/// Exponential backoff starts from its interval and multiplies it after every
/// delay; its settings do not change and it never stops.
pub proof fn law_exponential_growth<J: Jitter>(
    states: Seq<ExponentialBackoff<J>>,
    delays: Seq<Duration>,
    j: int,
)
    requires
        policy::hands_out(states, delays),
        0 <= j < states.len(),
    ensures
        time::nanos(states[j].nominal()) == interval_after(
            time::nanos(states[0].nominal()),
            states[0].multiplier(),
            j as nat,
        ),
        states[j].initial() == states[0].initial(),
        states[j].multiplier() == states[0].multiplier(),
        states[j].spread() == states[0].spread(),
        policy::endless::<ExponentialBackoff<J>>(),
    decreases j,
{
    if j > 0 {
        law_exponential_growth(states, delays, j - 1);
        assert(ExponentialBackoff::<J>::advances(&states[j - 1], &states[j], Some(delays[j - 1])));
    }
}

/// Without jitter, the delays are the intervals themselves.
pub proof fn law_deterministic_backoff(
    states: Seq<ExponentialBackoff<NoJitter>>,
    delays: Seq<Duration>,
    j: int,
)
    requires
        policy::hands_out(states, delays),
        0 <= j < delays.len(),
    ensures
        time::nanos(delays[j]) == interval_after(
            time::nanos(states[0].nominal()),
            states[0].multiplier(),
            j as nat,
        ),
{
    law_exponential_growth(states, delays, j);
    assert(ExponentialBackoff::<NoJitter>::advances(&states[j], &states[j + 1], Some(delays[j])));
    law_no_jitter_keeps_delays(
        states[j].source(),
        states[j + 1].source(),
        states[j].nominal(),
        states[j].spread(),
        delays[j],
    );
}

/// Without jitter, no delay is shorter than one before it, where the multiplier
/// is at least one or stands for no growth and the first interval is at most
/// `2^23` seconds.
pub proof fn law_delays_never_shrink(
    states: Seq<ExponentialBackoff<NoJitter>>,
    delays: Seq<Duration>,
    i: int,
    j: int,
)
    requires
        policy::hands_out(states, delays),
        time::nanos(states[0].nominal()) <= 8_388_608_000_000_000,
        policy::no_growth(states[0].multiplier()) || states[0].multiplier().units() >= pow2(1074),
        0 <= i <= j < delays.len(),
    ensures
        time::nanos(delays[i]) <= time::nanos(delays[j]),
{
    law_deterministic_backoff(states, delays, i);
    law_deterministic_backoff(states, delays, j);
    law_intervals_never_shrink(
        time::nanos(states[0].nominal()),
        states[0].multiplier(),
        i as nat,
        j as nat,
    );
}

/// Every delay of a backoff lies within the spread of its interval: for an
/// interval of `n` nanoseconds and a spread of `f`, from `n * (1 - f)`,
/// inclusive, to `n * (1 + f)`, exclusive. Where there is nothing to spread, it
/// is the interval itself.
pub proof fn law_backoff_stays_in_range<J: Jitter>(
    pre: ExponentialBackoff<J>,
    post: ExponentialBackoff<J>,
    delay: Duration,
)
    requires
        ExponentialBackoff::<J>::advances(&pre, &post, Some(delay)),
    ensures
        jitter::unspread(pre.nominal(), pre.spread()) ==> delay == pre.nominal(),
        !jitter::unspread(pre.nominal(), pre.spread()) ==> ({
            let one = pow2(1074);
            let n = time::nanos(pre.nominal());
            let f = jitter::capped(pre.spread());
            n * (one - f) <= time::nanos(delay) * one < n * (one + f)
        }),
{
    if !jitter::unspread(pre.nominal(), pre.spread()) {
        let unit = choose|unit: Binary64| #[trigger]
            pre.source().draws(&post.source(), unit) && jitter::in_unit_range(unit)
                && jitter::jittered_to(pre.nominal(), pre.spread(), unit, delay);
        law_jitter_stays_in_range(pre.nominal(), pre.spread(), unit, delay);
    }
}

/// A whole multiplier gives `n`, `n * times`, `n * times^2` and so on, exactly,
/// while the intervals stay below `2^50` nanoseconds.
pub proof fn law_whole_powers(n: nat, times: nat, multiplier: Binary64, calls: nat)
    requires
        multiplier.finite(),
        multiplier.positive(),
        multiplier.units() == times * pow2(1074),
        n * vstd::arithmetic::power::pow(times as int, calls) < pow2(50),
    ensures
        interval_after(n, multiplier, calls) == n * vstd::arithmetic::power::pow(
            times as int,
            calls,
        ),
    decreases calls,
{
    broadcast use vstd::arithmetic::power::lemma_pow_positive;

    multiplier.lemma_positive_units();
    assert(times >= 1) by (nonlinear_arith)
        requires
            times * pow2(1074) > 0,
    ;
    if calls == 0 {
        vstd::arithmetic::power::lemma_pow0(times as int);
    } else {
        let less = (calls - 1) as nat;
        let p = vstd::arithmetic::power::pow(times as int, less);
        vstd::arithmetic::power::lemma_pow_positive(times as int, less);
        reveal(vstd::arithmetic::power::pow);
        assert(n * (times * p) == (n * p) * times) by (nonlinear_arith);
        assert(n * p <= (n * p) * times) by (nonlinear_arith)
            requires
                times >= 1,
                p > 0,
        ;
        law_whole_powers(n, times, multiplier, less);
        law_whole_multiplier_is_exact((n * p) as nat, times, multiplier);
    }
}

/// A reset takes exponential backoff back to its first interval, from wherever
/// it has got to. The jitter source goes on from where it is.
pub proof fn law_exponential_reset<J: Jitter>(
    states: Seq<ExponentialBackoff<J>>,
    delays: Seq<Duration>,
    post: ExponentialBackoff<J>,
)
    requires
        policy::hands_out(states, delays),
        states[0].nominal() == states[0].initial(),
        ExponentialBackoff::<J>::rewinds(&states.last(), &post),
    ensures
        post.nominal() == states[0].nominal(),
        post.initial() == states[0].initial(),
        post.multiplier() == states[0].multiplier(),
        post.spread() == states[0].spread(),
        post.source() == states.last().source(),
{
    law_exponential_growth(states, delays, states.len() - 1);
}

/// The same seed gives the same delays.
pub proof fn law_seeded_backoff_is_reproducible(
    a: Seq<ExponentialBackoff<SplitMix64>>,
    x: Seq<Duration>,
    b: Seq<ExponentialBackoff<SplitMix64>>,
    y: Seq<Duration>,
    j: int,
)
    requires
        policy::hands_out(a, x),
        policy::hands_out(b, y),
        time::nanos(a[0].nominal()) == time::nanos(b[0].nominal()),
        a[0].multiplier().bits() == b[0].multiplier().bits(),
        a[0].spread().bits() == b[0].spread().bits(),
        a[0].source().state() == b[0].source().state(),
        0 <= j < a.len(),
        0 <= j < b.len(),
    ensures
        a[j].source().state() == b[j].source().state(),
        j > 0 ==> time::nanos(x[j - 1]) == time::nanos(y[j - 1]),
    decreases j,
{
    a[0].multiplier().lemma_same_bits(b[0].multiplier());
    a[0].spread().lemma_same_bits(b[0].spread());
    if j > 0 {
        let i = j - 1;
        law_seeded_backoff_is_reproducible(a, x, b, y, i);
        law_exponential_growth(a, x, i);
        law_exponential_growth(b, y, i);
        assert(ExponentialBackoff::<SplitMix64>::advances(&a[i], &a[j], Some(x[i])));
        assert(ExponentialBackoff::<SplitMix64>::advances(&b[i], &b[j], Some(y[i])));
        let factor = a[i].spread();
        if !jitter::unspread(a[i].nominal(), factor) {
            let u = choose|u: Binary64| #[trigger]
                SplitMix64::draws(&a[i].source(), &a[j].source(), u) && jitter::in_unit_range(u)
                    && jitter::jittered_to(a[i].nominal(), factor, u, x[i]);
            let v = choose|v: Binary64| #[trigger]
                SplitMix64::draws(&b[i].source(), &b[j].source(), v) && jitter::in_unit_range(v)
                    && jitter::jittered_to(b[i].nominal(), factor, v, y[i]);
            law_generator_is_reproducible(
                a[i].source(),
                a[j].source(),
                u,
                b[i].source(),
                b[j].source(),
                v,
            );
        }
    }
}

/// A capped policy counts what it hands out, and never hands out more than its
/// limit.
pub proof fn law_attempts_are_limited<P: BackoffPolicy>(
    states: Seq<MaxAttempts<P>>,
    delays: Seq<Duration>,
    j: int,
)
    requires
        policy::hands_out(states, delays),
        states[0].used() <= states[0].limit(),
        0 <= j < states.len(),
    ensures
        states[j].limit() == states[0].limit(),
        states[j].used() == states[0].used() + j,
        states[0].used() + j <= states[0].limit(),
    decreases j,
{
    if j > 0 {
        law_attempts_are_limited(states, delays, j - 1);
        assert(MaxAttempts::<P>::advances(&states[j - 1], &states[j], Some(delays[j - 1])));
    }
}

/// A capped policy over one that never stops stops exactly at its limit: it
/// hands out a delay while there are attempts left, none after that.
pub proof fn law_attempts_are_granted<P: BackoffPolicy>(
    pre: MaxAttempts<P>,
    post: MaxAttempts<P>,
    delay: Option<Duration>,
)
    requires
        policy::endless::<P>(),
        MaxAttempts::<P>::advances(&pre, &post, delay),
    ensures
        delay is Some <==> pre.used() < pre.limit(),
{
    if delay is None && pre.used() < pre.limit() {
        assert(P::advances(&pre.wrapped(), &post.wrapped(), None));
    }
}

/// After a reset, all attempts are there again.
pub proof fn law_attempts_reset<P: BackoffPolicy>(pre: MaxAttempts<P>, post: MaxAttempts<P>)
    requires
        MaxAttempts::<P>::rewinds(&pre, &post),
    ensures
        post.used() == 0,
        post.limit() == pre.limit(),
        P::rewinds(&pre.wrapped(), &post.wrapped()),
{
}

/// No delay exceeds the cap, and one within the cap is handed on unchanged.
pub proof fn law_delays_are_capped<P: BackoffPolicy>(
    pre: WithMaxDelay<P>,
    post: WithMaxDelay<P>,
    delay: Duration,
)
    requires
        WithMaxDelay::<P>::advances(&pre, &post, Some(delay)),
    ensures
        time::nanos(delay) <= time::nanos(pre.cap()),
        post.cap() == pre.cap(),
        time::nanos(delay) < time::nanos(pre.cap()) ==> P::advances(
            &pre.wrapped(),
            &post.wrapped(),
            Some(delay),
        ),
{
}

/// Capping the delays of a policy that never stops does not stop it.
pub proof fn law_capping_keeps_endlessness<P: BackoffPolicy>()
    requires
        policy::endless::<P>(),
    ensures
        policy::endless::<WithMaxDelay<P>>(),
{
    assert forall|pre: WithMaxDelay<P>, post: WithMaxDelay<P>| !(
    #[trigger] WithMaxDelay::<P>::advances(&pre, &post, None)) by {
        assert(!P::advances(&pre.wrapped(), &post.wrapped(), None));
    }
}

/// The two caps together: at most `limit` delays, none longer than the cap.
pub proof fn law_composed_caps<P: BackoffPolicy>(
    states: Seq<MaxAttempts<WithMaxDelay<P>>>,
    delays: Seq<Duration>,
    j: int,
)
    requires
        policy::hands_out(states, delays),
        states[0].used() == 0,
        0 <= j < states.len(),
    ensures
        j <= states[0].limit(),
        states[j].wrapped().cap() == states[0].wrapped().cap(),
        j > 0 ==> time::nanos(delays[j - 1]) <= time::nanos(states[0].wrapped().cap()),
    decreases j,
{
    law_attempts_are_limited(states, delays, j);
    if j > 0 {
        law_composed_caps(states, delays, j - 1);
        law_attempts_are_limited(states, delays, j - 1);
        assert(MaxAttempts::<WithMaxDelay<P>>::advances(
            &states[j - 1],
            &states[j],
            Some(delays[j - 1]),
        ));
        law_delays_are_capped(states[j - 1].wrapped(), states[j].wrapped(), delays[j - 1]);
    }
}

/// A time budget is counted from the first call: from then on the start, the
/// clock and the budget stay as they are.
pub proof fn law_budget_starts_once<P: BackoffPolicy, C: Clock>(
    states: Seq<MaxElapsedTime<P, C>>,
    delays: Seq<Duration>,
    j: int,
)
    requires
        policy::hands_out(states, delays),
        1 <= j < states.len(),
    ensures
        states[j].started() is Some,
        states[j].started() == states[1].started(),
        states[0].started() is Some ==> states[1].started() == states[0].started(),
        states[j].budget() == states[0].budget(),
        states[j].clock() == states[0].clock(),
    decreases j,
{
    assert(MaxElapsedTime::<P, C>::advances(&states[j - 1], &states[j], Some(delays[j - 1])));
    if j > 1 {
        law_budget_starts_once(states, delays, j - 1);
    } else {
        assert(states[j - 1] == states[0]);
    }
}

/// A delay is handed out only while, at an instant that the clock reads, less
/// than the budget has elapsed since the start, and it is then the inner
/// policy's.
pub proof fn law_budget_is_kept<P: BackoffPolicy, C: Clock>(
    pre: MaxElapsedTime<P, C>,
    post: MaxElapsedTime<P, C>,
    delay: Duration,
)
    requires
        MaxElapsedTime::<P, C>::advances(&pre, &post, Some(delay)),
    ensures
        P::advances(&pre.wrapped(), &post.wrapped(), Some(delay)),
        exists|now: C::Instant, elapsed: Duration|
            #![trigger pre.clock().measures(pre.start_at(now), now, elapsed)]
            pre.clock().reads(now) && pre.clock().measures(pre.start_at(now), now, elapsed)
                && time::nanos(elapsed) < time::nanos(pre.budget()) && post.started() == Some(
                pre.start_at(now),
            ),
{
    let (now, elapsed) = choose|now: C::Instant, elapsed: Duration|
        pre.clock().reads(now) && #[trigger] pre.advances_at(&post, Some(delay), now, elapsed);
    assert(pre.clock().measures(pre.start_at(now), now, elapsed));
}

/// A budget decides at the instant of a call: once it has elapsed there is no
/// delay and the inner policy is not asked; before that, a policy that never
/// stops goes on.
pub proof fn law_spent_budget_stops<P: BackoffPolicy, C: Clock>(
    pre: MaxElapsedTime<P, C>,
    post: MaxElapsedTime<P, C>,
    delay: Option<Duration>,
    now: C::Instant,
    elapsed: Duration,
)
    requires
        pre.advances_at(&post, delay, now, elapsed),
    ensures
        time::nanos(elapsed) >= time::nanos(pre.budget()) ==> delay is None && post.wrapped()
            == pre.wrapped(),
        policy::endless::<P>() && time::nanos(elapsed) < time::nanos(pre.budget())
            ==> delay is Some,
{
    if policy::endless::<P>() {
        assert(!P::advances(&pre.wrapped(), &post.wrapped(), None));
    }
}

/// After a reset, a time budget is counted anew, from the next call.
pub proof fn law_budget_reset<P: BackoffPolicy, C: Clock>(
    pre: MaxElapsedTime<P, C>,
    post: MaxElapsedTime<P, C>,
    now: C::Instant,
)
    requires
        MaxElapsedTime::<P, C>::rewinds(&pre, &post),
    ensures
        post.start_at(now) == now,
        post.budget() == pre.budget(),
        P::rewinds(&pre.wrapped(), &post.wrapped()),
{
}

/// Two policies in step, once alike, answer alike to any run of calls.
pub proof fn law_policies_in_step_answer_alike<P: BackoffPolicy, Q: BackoffPolicy>(
    alike: spec_fn(P, Q) -> bool,
    a: Seq<P>,
    x: Seq<Call>,
    b: Seq<Q>,
    y: Seq<Call>,
)
    requires
        policy::in_step(alike),
        policy::goes_through(a, x),
        policy::goes_through(b, y),
        policy::same_calls(x, y),
        alike(a[0], b[0]),
    ensures
        policy::same_answers(x, y),
        alike(a.last(), b.last()),
{
    assert forall|i: int| 0 <= i < x.len() implies policy::same_answer(
        #[trigger] x[i],
        #[trigger] y[i],
    ) by {
        lemma_stay_alike(alike, a, x, b, y, i);
        match (x[i], y[i]) {
            (Call::Next(d), Call::Next(e)) => {
                assert(P::advances(&a[i], &a[i + 1], d));
                assert(Q::advances(&b[i], &b[i + 1], e));
            },
            _ => {},
        }
    }
    lemma_stay_alike(alike, a, x, b, y, x.len() as int);
}

/// Two policies in step stay alike.
proof fn lemma_stay_alike<P: BackoffPolicy, Q: BackoffPolicy>(
    alike: spec_fn(P, Q) -> bool,
    a: Seq<P>,
    x: Seq<Call>,
    b: Seq<Q>,
    y: Seq<Call>,
    j: int,
)
    requires
        policy::in_step(alike),
        policy::goes_through(a, x),
        policy::goes_through(b, y),
        policy::same_calls(x, y),
        alike(a[0], b[0]),
        0 <= j <= x.len(),
    ensures
        alike(a[j], b[j]),
    decreases j,
{
    if j > 0 {
        let i = j - 1;
        lemma_stay_alike(alike, a, x, b, y, i);
        match (x[i], y[i]) {
            (Call::Next(d), Call::Next(e)) => {
                assert(P::advances(&a[i], &a[j], d));
                assert(Q::advances(&b[i], &b[j], e));
            },
            _ => {
                assert(x[i] is Reset && y[i] is Reset);
                assert(P::rewinds(&a[i], &a[j]));
                assert(Q::rewinds(&b[i], &b[j]));
            },
        }
    }
}

/// What makes two constant policies alike: the same delay.
pub open spec fn alike_constants() -> spec_fn(Constant, Constant) -> bool {
    |a: Constant, b: Constant| time::nanos(a.delay()) == time::nanos(b.delay())
}

/// Constant policies of the same delay stay in step.
pub proof fn law_constants_are_in_step()
    ensures
        policy::in_step(alike_constants()),
{
}

/// What makes two backoffs alike: the same intervals, multiplier and spread,
/// and sources that are alike.
pub open spec fn alike_backoffs<J: Jitter>(alike: spec_fn(J, J) -> bool) -> spec_fn(
    ExponentialBackoff<J>,
    ExponentialBackoff<J>,
) -> bool {
    |a: ExponentialBackoff<J>, b: ExponentialBackoff<J>|
        {
            &&& time::nanos(a.initial()) == time::nanos(b.initial())
            &&& time::nanos(a.nominal()) == time::nanos(b.nominal())
            &&& a.multiplier().bits() == b.multiplier().bits()
            &&& a.spread().bits() == b.spread().bits()
            &&& alike(a.source(), b.source())
        }
}

/// Sources that are alike apply the same jitter, for spreads that are the same
/// once capped, and stay alike.
proof fn lemma_apply_alike<J: Jitter>(
    alike: spec_fn(J, J) -> bool,
    a: J,
    a_post: J,
    base: Duration,
    f: Binary64,
    r: Duration,
    b: J,
    b_post: J,
    same: Duration,
    g: Binary64,
    s: Duration,
)
    requires
        jitter::draw_alike(alike),
        alike(a, b),
        time::nanos(base) == time::nanos(same),
        jitter::unspread(base, f) <==> jitter::unspread(same, g),
        jitter::capped(f) == jitter::capped(g),
        jitter::applies(&a, &a_post, base, f, r),
        jitter::applies(&b, &b_post, same, g, s),
    ensures
        alike(a_post, b_post),
        time::nanos(r) == time::nanos(s),
{
    if !jitter::unspread(base, f) {
        let u = choose|u: Binary64| #[trigger]
            J::draws(&a, &a_post, u) && jitter::in_unit_range(u) && jitter::jittered_to(
                base,
                f,
                u,
                r,
            );
        let v = choose|v: Binary64| #[trigger]
            J::draws(&b, &b_post, v) && jitter::in_unit_range(v) && jitter::jittered_to(
                same,
                g,
                v,
                s,
            );
        assert(u.units() == v.units());
    }
}

/// A spread factor above one acts as one, and so does NaN: sources that are
/// alike give the same delay and stay alike.
pub proof fn law_factor_above_one_acts_as_one<J: Jitter>(
    alike: spec_fn(J, J) -> bool,
    a: J,
    a_post: J,
    r: Duration,
    b: J,
    b_post: J,
    s: Duration,
    base: Duration,
    factor: Binary64,
    one: Binary64,
)
    requires
        jitter::draw_alike(alike),
        alike(a, b),
        factor.nan() || (factor.positive() && (factor.infinite() || factor.units() > pow2(1074))),
        one.bits() == 0x3ff0_0000_0000_0000,
        jitter::applies(&a, &a_post, base, factor, r),
        jitter::applies(&b, &b_post, base, one, s),
    ensures
        alike(a_post, b_post),
        time::nanos(r) == time::nanos(s),
{
    float::lemma_is_one(one);
    lemma_apply_alike(alike, a, a_post, base, factor, r, b, b_post, base, one, s);
}

/// Backoffs of the same settings stay in step, where their sources draw alike.
pub proof fn law_backoffs_are_in_step<J: Jitter>(alike: spec_fn(J, J) -> bool)
    requires
        jitter::draw_alike(alike),
    ensures
        policy::in_step(alike_backoffs(alike)),
{
    assert forall|
        p: ExponentialBackoff<J>,
        p_post: ExponentialBackoff<J>,
        d: Option<Duration>,
        q: ExponentialBackoff<J>,
        q_post: ExponentialBackoff<J>,
        e: Option<Duration>,
    |
        alike_backoffs(alike)(p, q) && #[trigger] ExponentialBackoff::<J>::advances(&p, &p_post, d)
            && #[trigger] ExponentialBackoff::<J>::advances(&q, &q_post, e) implies alike_backoffs(
        alike,
    )(p_post, q_post) && policy::same_delay(d, e) by {
        p.multiplier().lemma_same_bits(q.multiplier());
        p.spread().lemma_same_bits(q.spread());
        lemma_apply_alike(
            alike,
            p.source(),
            p_post.source(),
            p.nominal(),
            p.spread(),
            d->0,
            q.source(),
            q_post.source(),
            q.nominal(),
            q.spread(),
            e->0,
        );
    }
}

/// What makes two generators alike: the same state.
pub open spec fn alike_generators() -> spec_fn(SplitMix64, SplitMix64) -> bool {
    |a: SplitMix64, b: SplitMix64| a.state() == b.state()
}

/// Generators in the same state draw alike, and so do sources without
/// randomness.
pub proof fn law_sources_draw_alike()
    ensures
        jitter::draw_alike(alike_generators()),
        jitter::draw_alike(|a: NoJitter, b: NoJitter| true),
{
}

/// A spread factor and the same factor clamped give the same delays, to any run
/// of calls. One that is not above zero gives the intervals themselves.
pub proof fn law_clamping_keeps_the_delays<J: Jitter>(
    alike: spec_fn(J, J) -> bool,
    factor: Binary64,
    clamped: Binary64,
    a: Seq<ExponentialBackoff<J>>,
    x: Seq<Call>,
    b: Seq<ExponentialBackoff<J>>,
    y: Seq<Call>,
)
    requires
        jitter::draw_alike(alike),
        clamped.bits() == policy::clamped_factor(factor),
        a[0].spread().bits() == policy::clamped_factor(factor),
        b[0].spread().bits() == policy::clamped_factor(clamped),
        time::nanos(a[0].initial()) == time::nanos(b[0].initial()),
        time::nanos(a[0].nominal()) == time::nanos(b[0].nominal()),
        a[0].multiplier().bits() == b[0].multiplier().bits(),
        alike(a[0].source(), b[0].source()),
        policy::goes_through(a, x),
        policy::goes_through(b, y),
        policy::same_calls(x, y),
    ensures
        policy::same_answers(x, y),
        !factor.nan() && !factor.positive() ==> forall|i: int|
            0 <= i < x.len() && #[trigger] x[i] is Next ==> x[i]->0 == Some(a[i].nominal()),
{
    lemma_clamped_once(factor, clamped);
    law_backoffs_are_in_step(alike);
    law_policies_in_step_answer_alike(alike_backoffs(alike), a, x, b, y);
    if !factor.nan() && !factor.positive() {
        assert forall|i: int| 0 <= i < x.len() && #[trigger] x[i] is Next implies x[i]->0 == Some(
            a[i].nominal(),
        ) by {
            lemma_spread_is_kept(a, x, i);
            assert(ExponentialBackoff::<J>::advances(&a[i], &a[i + 1], x[i]->0));
        }
    }
}

/// Clamping twice is clamping once.
proof fn lemma_clamped_once(factor: Binary64, clamped: Binary64)
    requires
        clamped.bits() == policy::clamped_factor(factor),
    ensures
        policy::clamped_factor(clamped) == policy::clamped_factor(factor),
        !factor.nan() && !factor.positive() ==> !clamped.nan() && !clamped.positive(),
{
    if clamped.bits() == factor.bits() {
        clamped.lemma_same_bits(factor);
    } else if clamped.bits() == 0x3ff0_0000_0000_0000 {
        float::lemma_is_one(clamped);
    }
}

/// A backoff keeps its spread.
proof fn lemma_spread_is_kept<J: Jitter>(
    states: Seq<ExponentialBackoff<J>>,
    calls: Seq<Call>,
    j: int,
)
    requires
        policy::goes_through(states, calls),
        0 <= j < states.len(),
    ensures
        states[j].spread() == states[0].spread(),
    decreases j,
{
    if j > 0 {
        lemma_spread_is_kept(states, calls, j - 1);
        let call = calls[j - 1];
    }
}

/// What makes two nested attempt caps and a single one alike: the single one is
/// the smaller of the two, all have used up the same, and the inner policies are
/// alike.
spec fn alike_nested<P: BackoffPolicy>(alike: spec_fn(P, P) -> bool) -> spec_fn(
    MaxAttempts<MaxAttempts<P>>,
    MaxAttempts<P>,
) -> bool {
    |a: MaxAttempts<MaxAttempts<P>>, b: MaxAttempts<P>|
        {
            &&& a.used() == b.used()
            &&& a.wrapped().used() == b.used()
            &&& b.limit() == if a.limit() <= a.wrapped().limit() {
                a.limit()
            } else {
                a.wrapped().limit()
            }
            &&& alike(a.wrapped().wrapped(), b.wrapped())
        }
}

/// Two nested attempt caps answer as the smaller one alone, to any run of calls.
pub proof fn law_nested_attempt_caps<P: BackoffPolicy>(
    alike: spec_fn(P, P) -> bool,
    a: Seq<MaxAttempts<MaxAttempts<P>>>,
    x: Seq<Call>,
    b: Seq<MaxAttempts<P>>,
    y: Seq<Call>,
)
    requires
        policy::in_step(alike),
        alike(a[0].wrapped().wrapped(), b[0].wrapped()),
        a[0].used() == 0,
        a[0].wrapped().used() == 0,
        b[0].used() == 0,
        a[0].limit() <= a[0].wrapped().limit() ==> b[0].limit() == a[0].limit(),
        a[0].wrapped().limit() <= a[0].limit() ==> b[0].limit() == a[0].wrapped().limit(),
        policy::goes_through(a, x),
        policy::goes_through(b, y),
        policy::same_calls(x, y),
    ensures
        policy::same_answers(x, y),
{
    assert(policy::in_step(alike_nested(alike)));
    law_policies_in_step_answer_alike(alike_nested(alike), a, x, b, y);
}

/// What makes the two orders of the caps alike: the same caps, the same attempts
/// used up, and inner policies that are alike.
spec fn alike_orders<P: BackoffPolicy>(alike: spec_fn(P, P) -> bool) -> spec_fn(
    WithMaxDelay<MaxAttempts<P>>,
    MaxAttempts<WithMaxDelay<P>>,
) -> bool {
    |a: WithMaxDelay<MaxAttempts<P>>, b: MaxAttempts<WithMaxDelay<P>>|
        {
            &&& time::nanos(a.cap()) == time::nanos(b.wrapped().cap())
            &&& a.wrapped().limit() == b.limit()
            &&& a.wrapped().used() == b.used()
            &&& alike(a.wrapped().wrapped(), b.wrapped().wrapped())
        }
}

/// The attempt cap and the delay cap commute: in either order they give the same
/// answers, to any run of calls, and none is longer than the delay cap.
pub proof fn law_caps_commute<P: BackoffPolicy>(
    alike: spec_fn(P, P) -> bool,
    a: Seq<WithMaxDelay<MaxAttempts<P>>>,
    x: Seq<Call>,
    b: Seq<MaxAttempts<WithMaxDelay<P>>>,
    y: Seq<Call>,
)
    requires
        policy::in_step(alike),
        alike(a[0].wrapped().wrapped(), b[0].wrapped().wrapped()),
        time::nanos(a[0].cap()) == time::nanos(b[0].wrapped().cap()),
        a[0].wrapped().limit() == b[0].limit(),
        a[0].wrapped().used() == b[0].used(),
        policy::goes_through(a, x),
        policy::goes_through(b, y),
        policy::same_calls(x, y),
    ensures
        policy::same_answers(x, y),
        forall|i: int, delay: Duration|
            0 <= i < x.len() && #[trigger] x[i] == Call::Next(Some(delay)) ==> #[trigger] time::nanos(delay)
                <= time::nanos(a[0].cap()),
{
    assert(policy::in_step(alike_orders(alike)));
    law_policies_in_step_answer_alike(alike_orders(alike), a, x, b, y);
    assert forall|i: int, delay: Duration|
        0 <= i < x.len() && #[trigger] x[i] == Call::Next(Some(delay)) implies #[trigger] time::nanos(delay)
        <= time::nanos(a[0].cap()) by {
        lemma_cap_is_kept(a, x, i);
        law_delays_are_capped(a[i], a[i + 1], delay);
    }
}

/// A delay cap stays as it is.
proof fn lemma_cap_is_kept<P: BackoffPolicy>(
    states: Seq<WithMaxDelay<P>>,
    calls: Seq<Call>,
    j: int,
)
    requires
        policy::goes_through(states, calls),
        0 <= j < states.len(),
    ensures
        states[j].cap() == states[0].cap(),
    decreases j,
{
    if j > 0 {
        lemma_cap_is_kept(states, calls, j - 1);
        let call = calls[j - 1];
    }
}

/// How many of the first `j` calls handed out a delay, counted from the last
/// reset among them.
pub open spec fn delays_since_reset(calls: Seq<Call>, j: int) -> nat
    decreases j,
{
    if j <= 0 {
        0
    } else {
        match calls[j - 1] {
            Call::Reset => 0,
            Call::Next(Some(_)) => delays_since_reset(calls, j - 1) + 1,
            Call::Next(None) => delays_since_reset(calls, j - 1),
        }
    }
}

/// Over any run of calls, a capped policy hands out at most its limit of delays
/// per reset.
pub proof fn law_attempts_per_reset<P: BackoffPolicy>(
    states: Seq<MaxAttempts<P>>,
    calls: Seq<Call>,
    j: int,
)
    requires
        policy::goes_through(states, calls),
        states[0].used() == 0,
        0 <= j < states.len(),
    ensures
        states[j].limit() == states[0].limit(),
        states[j].used() == delays_since_reset(calls, j),
        delays_since_reset(calls, j) <= states[0].limit(),
    decreases j,
{
    if j > 0 {
        law_attempts_per_reset(states, calls, j - 1);
        let call = calls[j - 1];
    }
}

/// A run of retries goes through the delays of its policy.
proof fn lemma_run_hands_out<P, B, C, Op, Sleep>(
    operation: Op,
    sleep: Sleep,
    policies: Seq<P>,
    failures: Seq<C>,
    delays: Seq<Duration>,
) where P: BackoffPolicy, Op: FnMut() -> ControlFlow<B, C>, Sleep: FnMut(Duration)
    requires
        exec::is_run::<P, B, C, Op, Sleep>(operation, sleep, policies, failures, delays),
    ensures
        policy::hands_out(policies, delays),
{
    assert forall|i: int| 0 <= i < delays.len() implies P::advances(
        &policies[i],
        &policies[i + 1],
        Some(#[trigger] delays[i]),
    ) by {
        let c = failures[i];
    }
}

/// A run of retries of a host goes through the delays of its policy.
proof fn lemma_host_run_hands_out<P, H, B, C>(
    hosts: Seq<H>,
    tried: Seq<H>,
    policies: Seq<P>,
    failures: Seq<C>,
    delays: Seq<Duration>,
) where P: BackoffPolicy, H: Host<B, C>
    requires
        exec::is_host_run::<P, H, B, C>(hosts, tried, policies, failures, delays),
    ensures
        policy::hands_out(policies, delays),
{
    assert forall|i: int| 0 <= i < delays.len() implies P::advances(
        &policies[i],
        &policies[i + 1],
        Some(#[trigger] delays[i]),
    ) by {
        let c = failures[i];
    }
}

/// A loop over a capped policy uses up one attempt for every retry, and gives up
/// over a policy that never stops only at the limit.
proof fn lemma_retries_are_limited<P: BackoffPolicy>(
    policies: Seq<MaxAttempts<P>>,
    delays: Seq<Duration>,
    post: MaxAttempts<P>,
    given_up: bool,
)
    requires
        policy::hands_out(policies, delays),
        exec::leaves(policies, post, given_up),
        policies[0].used() == 0,
    ensures
        delays.len() <= policies[0].limit(),
        !given_up ==> post.used() == delays.len(),
        policy::endless::<P>() && given_up ==> delays.len() == policies[0].limit() && post.used()
            == post.limit(),
{
    law_attempts_are_limited(policies, delays, policies.len() - 1);
    if policy::endless::<P>() && given_up {
        law_attempts_are_granted(policies.last(), post, None);
    }
}

/// A loop over a capped policy runs its operation at most once more than the
/// limit, and every retry uses up one attempt. Where the inner policy never
/// stops, it gives up only after exactly as many retries as the limit allows.
pub proof fn law_retries_are_limited<P, B, C, Op, Sleep>(
    operation: Op,
    sleep: Sleep,
    policies: Seq<MaxAttempts<P>>,
    failures: Seq<C>,
    delays: Seq<Duration>,
    post: MaxAttempts<P>,
    result: Result<B, RetryError<C>>,
) where P: BackoffPolicy, Op: FnMut() -> ControlFlow<B, C>, Sleep: FnMut(Duration)
    requires
        exec::is_run::<MaxAttempts<P>, B, C, Op, Sleep>(
            operation,
            sleep,
            policies,
            failures,
            delays,
        ),
        exec::ends(operation, policies, post, result),
        policies[0].used() == 0,
    ensures
        delays.len() <= policies[0].limit(),
        result is Ok ==> post.used() == delays.len(),
        policy::endless::<P>() && result is Err ==> delays.len() == policies[0].limit()
            && post.used() == post.limit(),
{
    lemma_run_hands_out::<MaxAttempts<P>, B, C, Op, Sleep>(
        operation,
        sleep,
        policies,
        failures,
        delays,
    );
    lemma_retries_are_limited(policies, delays, post, result is Err);
}

/// A loop over a policy that never stops does not give up, short of more
/// retries than a `u128` can count.
pub proof fn law_endless_policies_do_not_give_up<P, B, C, Op>(
    operation: Op,
    policies: Seq<P>,
    post: P,
    result: Result<B, RetryError<C>>,
) where P: BackoffPolicy, Op: FnMut() -> ControlFlow<B, C>
    requires
        policy::endless::<P>(),
        policies.len() <= u128::MAX,
        exec::ends(operation, policies, post, result),
    ensures
        result is Ok,
        operation.ensures((), ControlFlow::<B, C>::Break(result->Ok_0)),
{
}

/// A loop over a capped policy attempts its host at most once more than the
/// limit, and every retry uses up one attempt. Where the inner policy never
/// stops, it gives up only after exactly as many retries as the limit allows.
pub proof fn law_host_retries_are_limited<P, H, B, C>(
    hosts: Seq<H>,
    tried: Seq<H>,
    policies: Seq<MaxAttempts<P>>,
    failures: Seq<C>,
    delays: Seq<Duration>,
    host_post: H,
    post: MaxAttempts<P>,
    result: Result<B, RetryError<C>>,
) where P: BackoffPolicy, H: Host<B, C>
    requires
        exec::is_host_run::<MaxAttempts<P>, H, B, C>(hosts, tried, policies, failures, delays),
        exec::host_ends(hosts, host_post, policies, post, result),
        policies[0].used() == 0,
    ensures
        delays.len() <= policies[0].limit(),
        result is Ok ==> post.used() == delays.len(),
        policy::endless::<P>() && result is Err ==> delays.len() == policies[0].limit()
            && post.used() == post.limit(),
{
    lemma_host_run_hands_out::<MaxAttempts<P>, H, B, C>(hosts, tried, policies, failures, delays);
    lemma_retries_are_limited(policies, delays, post, result is Err);
}

/// A loop attempts its host exactly once per delay, and once more: whatever
/// counts attempts has gone up by that much, after which the last attempt gave
/// the result.
pub proof fn law_attempts_are_counted<P, H, B, C>(
    count: spec_fn(H) -> nat,
    hosts: Seq<H>,
    tried: Seq<H>,
    policies: Seq<P>,
    failures: Seq<C>,
    delays: Seq<Duration>,
    host_post: H,
    post: P,
    result: Result<B, RetryError<C>>,
) where P: BackoffPolicy, H: Host<B, C>
    requires
        forall|h: H, h_post: H, outcome: ControlFlow<B, C>| #[trigger]
            H::attempts(&h, &h_post, outcome) ==> count(h_post) == count(h) + 1,
        forall|h: H, h_post: H, delay: Duration| #[trigger]
            H::sleeps(&h, &h_post, delay) ==> count(h_post) == count(h),
        exec::is_host_run::<P, H, B, C>(hosts, tried, policies, failures, delays),
        exec::host_ends(hosts, host_post, policies, post, result),
    ensures
        count(host_post) == count(hosts[0]) + delays.len() + 1,
        H::attempts(&hosts.last(), &host_post, exec::last_outcome(result)),
        count(hosts.last()) == count(hosts[0]) + delays.len(),
{
    lemma_attempts_so_far::<P, H, B, C>(
        count,
        hosts,
        tried,
        policies,
        failures,
        delays,
        delays.len() as int,
    );
}

/// One attempt is counted for every delay so far.
proof fn lemma_attempts_so_far<P, H, B, C>(
    count: spec_fn(H) -> nat,
    hosts: Seq<H>,
    tried: Seq<H>,
    policies: Seq<P>,
    failures: Seq<C>,
    delays: Seq<Duration>,
    j: int,
) where P: BackoffPolicy, H: Host<B, C>
    requires
        forall|h: H, h_post: H, outcome: ControlFlow<B, C>| #[trigger]
            H::attempts(&h, &h_post, outcome) ==> count(h_post) == count(h) + 1,
        forall|h: H, h_post: H, delay: Duration| #[trigger]
            H::sleeps(&h, &h_post, delay) ==> count(h_post) == count(h),
        exec::is_host_run::<P, H, B, C>(hosts, tried, policies, failures, delays),
        0 <= j <= delays.len(),
    ensures
        count(hosts[j]) == count(hosts[0]) + j,
    decreases j,
{
    if j > 0 {
        lemma_attempts_so_far::<P, H, B, C>(
            count,
            hosts,
            tried,
            policies,
            failures,
            delays,
            j - 1,
        );
        let failure = failures[j - 1];
    }
}

/// The first `j` delays together, in nanoseconds.
pub open spec fn total_of(delays: Seq<Duration>, j: int) -> nat
    decreases j,
{
    if j <= 0 {
        0
    } else {
        total_of(delays, j - 1) + time::nanos(delays[j - 1])
    }
}

/// A loop waits exactly the delays of its policy: whatever measures the time
/// slept has gone up by their sum.
pub proof fn law_sleeps_add_up<P, H, B, C>(
    slept: spec_fn(H) -> nat,
    hosts: Seq<H>,
    tried: Seq<H>,
    policies: Seq<P>,
    failures: Seq<C>,
    delays: Seq<Duration>,
    host_post: H,
    post: P,
    result: Result<B, RetryError<C>>,
) where P: BackoffPolicy, H: Host<B, C>
    requires
        forall|h: H, h_post: H, outcome: ControlFlow<B, C>| #[trigger]
            H::attempts(&h, &h_post, outcome) ==> slept(h_post) == slept(h),
        forall|h: H, h_post: H, delay: Duration| #[trigger]
            H::sleeps(&h, &h_post, delay) ==> slept(h_post) == slept(h) + time::nanos(delay),
        exec::is_host_run::<P, H, B, C>(hosts, tried, policies, failures, delays),
        exec::host_ends(hosts, host_post, policies, post, result),
    ensures
        slept(host_post) == slept(hosts[0]) + total_of(delays, delays.len() as int),
        policy::hands_out(policies, delays),
{
    lemma_slept_so_far::<P, H, B, C>(
        slept,
        hosts,
        tried,
        policies,
        failures,
        delays,
        delays.len() as int,
    );
    lemma_host_run_hands_out::<P, H, B, C>(hosts, tried, policies, failures, delays);
}

/// The delays so far have been slept.
proof fn lemma_slept_so_far<P, H, B, C>(
    slept: spec_fn(H) -> nat,
    hosts: Seq<H>,
    tried: Seq<H>,
    policies: Seq<P>,
    failures: Seq<C>,
    delays: Seq<Duration>,
    j: int,
) where P: BackoffPolicy, H: Host<B, C>
    requires
        forall|h: H, h_post: H, outcome: ControlFlow<B, C>| #[trigger]
            H::attempts(&h, &h_post, outcome) ==> slept(h_post) == slept(h),
        forall|h: H, h_post: H, delay: Duration| #[trigger]
            H::sleeps(&h, &h_post, delay) ==> slept(h_post) == slept(h) + time::nanos(delay),
        exec::is_host_run::<P, H, B, C>(hosts, tried, policies, failures, delays),
        0 <= j <= delays.len(),
    ensures
        slept(hosts[j]) == slept(hosts[0]) + total_of(delays, j),
    decreases j,
{
    if j > 0 {
        lemma_slept_so_far::<P, H, B, C>(slept, hosts, tried, policies, failures, delays, j - 1);
        let failure = failures[j - 1];
    }
}

} // verus!
