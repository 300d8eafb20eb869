//! What the results of single operations must satisfy.
//!
//! Each law here holds a result against its inputs alone: as an inverse that
//! gives the input back, as the nearest value to an exact quotient, or as what
//! is left of another policy's answer.
use core::ops::ControlFlow;
use core::time::Duration;
use vstd::arithmetic::power2::pow2;
use vstd::prelude::*;

use crate::clock::Clock;
use crate::exec;
use crate::exec::{Closures, Host, RetryError};
use crate::float;
use crate::float::Binary64;
use crate::jitter;
use crate::jitter::{Jitter, SplitMix64};
use crate::laws;
use crate::policy;
use crate::policy::{
    BackoffPolicy, Constant, ExponentialBackoff, MaxAttempts, MaxElapsedTime, WithMaxDelay,
};
use crate::rounding;
use crate::time;
use crate::util;

verus! {

/// A product of two 64-bit numbers, of which the low 64 bits are kept.
pub open spec fn low_product(x: int, y: int) -> u64 {
    ((x * y) % 0x1_0000_0000_0000_0000) as u64
}

/// The number that, xored with itself shifted right by 31, gives `y`.
pub open spec fn unshifted_31(y: u64) -> u64 {
    y ^ (y >> 31) ^ (y >> 62)
}

/// The number that, xored with itself shifted right by 27, gives `y`.
pub open spec fn unshifted_27(y: u64) -> u64 {
    y ^ (y >> 27) ^ (y >> 54)
}

/// The number that, xored with itself shifted right by 30, gives `y`.
pub open spec fn unshifted_30(y: u64) -> u64 {
    y ^ (y >> 30) ^ (y >> 60)
}

/// The state that a raw value of the generator came from: the inverse of its
/// finalizer, with the inverses of its two multipliers.
pub open spec fn state_behind(value: u64) -> u64 {
    let b = low_product(unshifted_31(value) as int, 0x3196_42b2_d24d_8ec3);
    let a = low_product(unshifted_27(b) as int, 0x96de_1b17_3f11_9089);
    unshifted_30(a)
}

/// A number times an invertible one, times its inverse, is the number itself.
proof fn lemma_undone(x: u64, c: int, d: int)
    requires
        (c * d) % 0x1_0000_0000_0000_0000 == 1,
    ensures
        low_product(low_product(x as int, c) as int, d) == x,
{
    let m = 0x1_0000_0000_0000_0000int;
    vstd::arithmetic::div_mod::lemma_mul_mod_noop_left(x * c, d, m);
    vstd::arithmetic::div_mod::lemma_mul_mod_noop_right(x as int, c * d, m);
    assert((x * c) * d == x * (c * d)) by (nonlinear_arith);
}

/// Every raw value gives its state back, for every state.
pub proof fn law_values_give_back_their_state(state: u64)
    ensures
        state_behind(jitter::mixed(state)) == state,
{
    let a0 = state ^ (state >> 30);
    let a = a0.wrapping_mul(0xBF58_476D_1CE4_E5B9);
    let b0 = a ^ (a >> 27);
    let b = b0.wrapping_mul(0x94D0_49BB_1331_11EB);
    let value = b ^ (b >> 31);
    assert(value == jitter::mixed(state));
    assert(a == low_product(a0 as int, 0xBF58_476D_1CE4_E5B9));
    assert(b == low_product(b0 as int, 0x94D0_49BB_1331_11EB));
    assert(value ^ (value >> 31) ^ (value >> 62) == b) by (bit_vector)
        requires
            value == b ^ (b >> 31),
    ;
    assert(b0 ^ (b0 >> 27) ^ (b0 >> 54) == a) by (bit_vector)
        requires
            b0 == a ^ (a >> 27),
    ;
    assert(a0 ^ (a0 >> 30) ^ (a0 >> 60) == state) by (bit_vector)
        requires
            a0 == state ^ (state >> 30),
    ;
    assert((0x94D0_49BB_1331_11EBint * 0x3196_42b2_d24d_8ec3int) % 0x1_0000_0000_0000_0000 == 1);
    assert((0xBF58_476D_1CE4_E5B9int * 0x96de_1b17_3f11_9089int) % 0x1_0000_0000_0000_0000 == 1);
    lemma_undone(b0, 0x94D0_49BB_1331_11EB, 0x3196_42b2_d24d_8ec3);
    lemma_undone(a0, 0xBF58_476D_1CE4_E5B9, 0x96de_1b17_3f11_9089);
}

/// A draw of the generator adds the golden gamma to its state, modulo `2^64`,
/// and yields the raw value behind which that state stands, as a fraction of
/// `2^64` cut off after 53 bits.
pub proof fn law_generator_draws(pre: SplitMix64, post: SplitMix64, unit: Binary64, value: u64)
    requires
        SplitMix64::draws(&pre, &post, unit),
        state_behind(value) == post.state(),
    ensures
        post.state() == (pre.state() + 0x9E37_79B9_7F4A_7C15) % 0x1_0000_0000_0000_0000,
        !unit.negative(),
        unit.units() % pow2(1021) == 0,
        unit.units() * 0x1_0000_0000_0000_0000 <= value * pow2(1074),
        value * pow2(1074) < (unit.units() + pow2(1021)) * 0x1_0000_0000_0000_0000,
{
    law_values_give_back_their_state(post.state());
    lemma_behind_is_one_to_one(value, jitter::mixed(post.state()));
    let top = (value / 2048) as nat;
    let g = pow2(1021);
    vstd::arithmetic::power2::lemma2_to64_rest();
    vstd::arithmetic::power2::lemma_pow2_adds(53, 1021);
    rounding::lemma_pow2_mono(0, 1021);
    rounding::lemma_round_parts(top * g, g, top, 0);
    assert((top * g) * 0x1_0000_0000_0000_0000 <= value * (0x20_0000_0000_0000 * g)) by (nonlinear_arith)
        requires
            top * 2048 <= value,
    ;
    assert(value * (0x20_0000_0000_0000 * g) < (top * g + g) * 0x1_0000_0000_0000_0000)
        by (nonlinear_arith)
        requires
            value < top * 2048 + 2048,
            g > 0,
    ;
}

/// Two raw values with the same state behind them are the same.
proof fn lemma_behind_is_one_to_one(x: u64, y: u64)
    requires
        state_behind(x) == state_behind(y),
    ensures
        x == y,
{
    let (x1, y1) = (unshifted_31(x), unshifted_31(y));
    let (x2, y2) = (low_product(x1 as int, 0x3196_42b2_d24d_8ec3), low_product(y1 as int, 0x3196_42b2_d24d_8ec3));
    let (x3, y3) = (unshifted_27(x2), unshifted_27(y2));
    let (x4, y4) = (low_product(x3 as int, 0x96de_1b17_3f11_9089), low_product(y3 as int, 0x96de_1b17_3f11_9089));
    assert(x4 == y4) by (bit_vector)
        requires
            x4 ^ (x4 >> 30) ^ (x4 >> 60) == y4 ^ (y4 >> 30) ^ (y4 >> 60),
    ;
    assert((0x96de_1b17_3f11_9089int * 0xBF58_476D_1CE4_E5B9int) % 0x1_0000_0000_0000_0000 == 1);
    assert((0x3196_42b2_d24d_8ec3int * 0x94D0_49BB_1331_11EBint) % 0x1_0000_0000_0000_0000 == 1);
    lemma_undone(x3, 0x96de_1b17_3f11_9089, 0xBF58_476D_1CE4_E5B9);
    lemma_undone(y3, 0x96de_1b17_3f11_9089, 0xBF58_476D_1CE4_E5B9);
    assert(x2 == y2) by (bit_vector)
        requires
            x2 ^ (x2 >> 27) ^ (x2 >> 54) == y2 ^ (y2 >> 27) ^ (y2 >> 54),
    ;
    lemma_undone(x1, 0x3196_42b2_d24d_8ec3, 0x94D0_49BB_1331_11EB);
    lemma_undone(y1, 0x3196_42b2_d24d_8ec3, 0x94D0_49BB_1331_11EB);
    assert(x == y) by (bit_vector)
        requires
            x ^ (x >> 31) ^ (x >> 62) == y ^ (y >> 31) ^ (y >> 62),
    ;
}

/// Whether `v` is `m` steps of `2^k`, of the 53-bit steps that `num / den` falls
/// among, and no step is nearer to it; of two that are equally near, the even
/// one.
pub open spec fn is_rounding(num: nat, den: nat, v: nat, m: nat, k: nat) -> bool {
    &&& v == m * pow2(k)
    &&& num < den * pow2(53 + k)
    &&& k > 0 ==> den * pow2(52 + k) <= num
    &&& -(den * pow2(k)) <= 2 * (v * den - num) <= den * pow2(k)
    &&& 2 * (v * den - num) == den * pow2(k) ==> m % 2 == 0
    &&& 2 * (num - v * den) == den * pow2(k) ==> m % 2 == 0
}

/// Whether `v` is the binary64 magnitude that `num / den` rounds to.
pub open spec fn rounds_to(num: nat, den: nat, v: nat) -> bool {
    exists|m: nat, k: nat| #[trigger] is_rounding(num, den, v, m, k)
}

/// Whether `r` is the whole number that `num / den` rounds to.
pub open spec fn is_whole_rounding(num: nat, den: nat, r: nat) -> bool {
    &&& -den <= 2 * (r * den - num) <= den
    &&& 2 * (r * den - num) == den ==> r % 2 == 0
    &&& 2 * (num - r * den) == den ==> r % 2 == 0
}

/// Rounding to a whole number leaves the nearest one, the even one of two.
proof fn lemma_whole_rounding(num: nat, den: nat)
    requires
        den > 0,
    ensures
        is_whole_rounding(num, den, rounding::round_half_even(num, den)),
{
    let low = num / den;
    let rest = num % den;
    vstd::arithmetic::div_mod::lemma_fundamental_div_mod(num as int, den as int);
    assert(low * den == num - rest && (low + 1) * den == num - rest + den) by (nonlinear_arith)
        requires
            num == den * low + rest,
    ;
}

/// Rounding to binary64 leaves the nearest magnitude, the even one of two.
proof fn lemma_rounding(num: nat, den: nat)
    requires
        den > 0,
    ensures
        rounds_to(num, den, rounding::nearest(num, den)),
{
    let k = rounding::lemma_scale_exists(num, den);
    let s = pow2(k);
    let m = rounding::round_half_even(num, den * s);
    rounding::lemma_nearest_at(num, den, k);
    rounding::lemma_pow2_mono(0, k);
    assert(den * s > 0) by (nonlinear_arith)
        requires
            den > 0,
            s > 0,
    ;
    lemma_whole_rounding(num, den * s);
    assert(m * (den * s) == (m * s) * den) by (nonlinear_arith);
    assert(is_rounding(num, den, rounding::nearest(num, den), m, k));
}

/// A count of nanoseconds as seconds, in steps: the whole seconds `a`, the part
/// of a second `b`, their sum `s`, and its product `p` with a factor of `units`
/// units, each rounded once.
pub open spec fn product_steps(n: nat, units: nat, a: nat, b: nat, s: nat, p: nat) -> bool {
    &&& rounds_to((n / 1_000_000_000) * pow2(1074), 1, a)
    &&& rounds_to((n % 1_000_000_000) * pow2(1074), 1_000_000_000, b)
    &&& rounds_to(a + b, 1, s)
    &&& rounds_to(s * units, pow2(1074), p)
}

/// Whether `r` is the delay of `p` seconds, in units of `2^-1074`: the nearest
/// nanosecond, or the longest delay from `2^64` seconds on.
pub open spec fn is_delay_of(p: nat, r: nat) -> bool {
    if p >= pow2(1138) {
        r == u64::MAX * 1_000_000_000 + 999_999_999
    } else {
        is_whole_rounding(p * 1_000_000_000, pow2(1074), r)
    }
}

/// The steps behind a product.
proof fn lemma_product_steps(n: nat, units: nat)
    ensures
        exists|a: nat, b: nat, s: nat, p: nat| #[trigger]
            product_steps(n, units, a, b, s, p) && is_delay_of(p, util::multiplied(n, units)),
{
    let one = pow2(1074);
    let (secs, sub) = (n / 1_000_000_000, n % 1_000_000_000);
    let a = rounding::nearest(secs * one, 1);
    let b = rounding::nearest(sub * one, 1_000_000_000);
    let s = rounding::nearest(a + b, 1);
    let p = rounding::nearest(s * units, one);
    rounding::lemma_pow2_mono(0, 1074);
    lemma_rounding(secs * one, 1);
    lemma_rounding(sub * one, 1_000_000_000);
    lemma_rounding(a + b, 1);
    lemma_rounding(s * units, one);
    lemma_whole_rounding(p * 1_000_000_000, one);
    assert(product_steps(n, units, a, b, s, p));
}

/// A delay times a finite factor above zero is what binary64 arithmetic makes of
/// it: four steps, each rounded to the nearest value, and the nearest nanosecond
/// of the last one.
pub proof fn law_product_is_correctly_rounded(n: nat, factor: Binary64)
    requires
        n > 0,
        factor.finite(),
        factor.positive(),
    ensures
        exists|a: nat, b: nat, s: nat, p: nat| #[trigger]
            product_steps(n, factor.units(), a, b, s, p) && is_delay_of(p, util::scaled(n, factor)),
{
    lemma_product_steps(n, factor.units());
}

/// A delay times a factor that is NaN or not above zero is zero, and so is zero
/// times anything; any other delay times infinity is the longest one.
pub proof fn law_degenerate_products(n: nat, factor: Binary64)
    ensures
        factor.nan() || !factor.positive() || n == 0 ==> util::scaled(n, factor) == 0,
        n > 0 && factor.positive() && factor.infinite() ==> util::scaled(n, factor) == u64::MAX
            * 1_000_000_000 + 999_999_999,
{
}

/// Up to `2^23` seconds, a delay times one is the delay itself.
pub proof fn law_times_one_is_exact(n: nat, factor: Binary64)
    requires
        n <= 8_388_608_000_000_000,
        factor.bits() == 0x3ff0_0000_0000_0000,
    ensures
        util::scaled(n, factor) == n,
{
    float::lemma_is_one(factor);
    laws::lemma_short_times_one(n, factor);
}

/// Whether `f` is a spread factor of `factor` once capped: the factor itself
/// from zero to one, and one where it is above that or NaN.
pub open spec fn caps_to(factor: Binary64, f: nat) -> bool {
    &&& factor.finite() && factor.units() <= pow2(1074) ==> f == factor.units()
    &&& factor.finite() && factor.units() > pow2(1074) ==> f == pow2(1074)
    &&& !factor.finite() ==> f == pow2(1074)
}

/// Whether `r` is the whole number nearest to `x` in the half-open range from
/// `n * (1 - f)` to `n * (1 + f)`.
pub open spec fn is_nearest_in_range(n: nat, f: nat, x: nat, r: nat) -> bool {
    let one = pow2(1074);
    &&& n * (one - f) <= r * one < n * (one + f)
    &&& x < r ==> (r - 1) * one < n * (one - f)
    &&& x > r ==> (r + 1) * one >= n * (one + f)
}

/// The scale that a draw stands for, `(1 - f) + unit * 2f`, in steps that are
/// each rounded once.
pub open spec fn scale_steps(f: nat, unit: nat, low: nat, step: nat, scale: nat) -> bool {
    &&& rounds_to((pow2(1074) - f) as nat, 1, low)
    &&& rounds_to(unit * (2 * f), pow2(1074), step)
    &&& rounds_to(low + step, 1, scale)
}

/// A spread delay, for a given draw, is what binary64 arithmetic makes of the
/// delay times `(1 - f) + unit * 2f`, kept in the half-open range. The midpoint
/// draw gives the delay itself.
pub proof fn law_spread_is_correctly_rounded(
    base: Duration,
    factor: Binary64,
    unit: Binary64,
    r: Duration,
    f: nat,
)
    requires
        factor.nan() || factor.positive(),
        caps_to(factor, f),
        time::nanos(base) > 0,
        jitter::jittered_to(base, factor, unit, r),
    ensures
        unit.units() == pow2(1073) ==> r == base,
        unit.units() != pow2(1073) ==> exists|
            low: nat,
            step: nat,
            scale: nat,
            a: nat,
            b: nat,
            s: nat,
            p: nat,
            x: nat,
        |
            #![trigger scale_steps(f, unit.units(), low, step, scale), product_steps(time::nanos(base), scale, a, b, s, p), is_delay_of(p, x)]
            scale_steps(f, unit.units(), low, step, scale) && product_steps(
                time::nanos(base),
                scale,
                a,
                b,
                s,
                p,
            ) && is_delay_of(p, x) && is_nearest_in_range(
                time::nanos(base),
                f,
                x,
                time::nanos(r),
            ),
{
    let one = pow2(1074);
    let n = time::nanos(base);
    let u = unit.units();
    rounding::lemma_pow2_mono(0, 1074);
    if factor.finite() {
        factor.lemma_positive_units();
    }
    assert(jitter::capped(factor) == f && 0 < f <= one);
    if u != pow2(1073) {
        let low = rounding::nearest((one - f) as nat, 1);
        let step = rounding::nearest(u * (2 * f), one);
        let scale = jitter::jitter_scale(f, u);
        lemma_rounding((one - f) as nat, 1);
        lemma_rounding(u * (2 * f), one);
        lemma_rounding(low + step, 1);
        assert(scale_steps(f, u, low, step, scale));
        lemma_product_steps(n, scale);
        let (a, b, s, p) = choose|a: nat, b: nat, s: nat, p: nat| #[trigger]
            product_steps(n, scale, a, b, s, p) && is_delay_of(p, util::multiplied(n, scale));
        let x = util::multiplied(n, scale);
        assert(is_delay_of(p, x));
        laws::law_jitter_stays_in_range(base, factor, unit, r);
        let d = time::nanos(r);
        let y = n * f;
        assert(n * (one - f) == n * one - y && n * (one + f) == n * one + y && y > 0)
            by (nonlinear_arith)
            requires
                y == n * f,
                n > 0,
                f > 0,
        ;
        let q = y / one;
        let t = ((y - 1) as nat) / one;
        vstd::arithmetic::div_mod::lemma_fundamental_div_mod(y as int, one as int);
        vstd::arithmetic::div_mod::lemma_fundamental_div_mod(y - 1, one as int);
        assert(q <= n) by (nonlinear_arith)
            requires
                y == one * q + y % one,
                y == n * f,
                f <= one,
                one > 0,
        ;
        if x < d {
            assert(d == n - q);
            let rem = y % one;
            assert((n - q - 1) * one < n * one - y) by (nonlinear_arith)
                requires
                    y == one * q + rem,
                    rem < one,
            ;
        }
        if x > d {
            assert(d == n + t);
            assert((n + t + 1) * one >= n * one + y) by (nonlinear_arith)
                requires
                    y - 1 == one * t + (y - 1) % (one as int),
                    (y - 1) % (one as int) < one,
            ;
        }
        assert(is_nearest_in_range(n, f, x, d));
    }
}

/// Applying jitter draws exactly once where there is something to spread, and
/// not at all where the factor is not above zero or the delay is zero.
pub proof fn law_apply_draws_once<J: Jitter>(
    pre: J,
    post: J,
    base: Duration,
    factor: Binary64,
    r: Duration,
)
    requires
        jitter::applies(&pre, &post, base, factor, r),
    ensures
        time::nanos(base) == 0 || (!factor.nan() && !factor.positive()) ==> post == pre && r
            == base,
        time::nanos(base) > 0 && (factor.nan() || factor.positive()) ==> exists|unit: Binary64|
            #[trigger]
            J::draws(&pre, &post, unit) && jitter::in_unit_range(unit) && jitter::jittered_to(
                base,
                factor,
                unit,
                r,
            ),
{
}

/// A bit pattern means what IEEE 754 says. Below `2^53` it counts units of
/// `2^-1074` itself; one step of the exponent more doubles a number from there
/// on; the sign bit does not change the magnitude. Past the exponents stands
/// infinity, and past infinity NaN.
pub proof fn law_bits_mean_numbers(x: Binary64, next: Binary64, opposite: Binary64)
    requires
        next.bits() == (x.bits() + 0x10_0000_0000_0000) % 0x1_0000_0000_0000_0000,
        opposite.bits() == (x.bits() + 0x8000_0000_0000_0000) % 0x1_0000_0000_0000_0000,
    ensures
        x.bits() < 0x20_0000_0000_0000 ==> x.units() == x.bits(),
        0x10_0000_0000_0000 <= x.bits() < 0x7fe0_0000_0000_0000 ==> next.units() == 2 * x.units(),
        x.finite() ==> opposite.finite() && opposite.units() == x.units(),
        x.negative() <==> x.bits() >= 0x8000_0000_0000_0000,
        !x.negative() ==> (x.finite() <==> x.bits() < 0x7ff0_0000_0000_0000),
        !x.negative() ==> (x.infinite() <==> x.bits() == 0x7ff0_0000_0000_0000),
        !x.negative() ==> (x.nan() <==> x.bits() > 0x7ff0_0000_0000_0000),
        x.positive() <==> 0 < x.bits() <= 0x7ff0_0000_0000_0000,
{
    vstd::arithmetic::power2::lemma2_to64();
    if 0x10_0000_0000_0000 <= x.bits() < 0x7fe0_0000_0000_0000 {
        assert(next.biased() == x.biased() + 1 && next.fraction() == x.fraction());
        vstd::arithmetic::power2::lemma_pow2_unfold(next.shift());
        assert(next.units() == 2 * x.units()) by (nonlinear_arith)
            requires
                next.units() == next.mantissa() * pow2(next.shift()),
                x.units() == x.mantissa() * pow2(x.shift()),
                next.mantissa() == x.mantissa(),
                pow2(next.shift()) == 2 * pow2(x.shift()),
        ;
    }
    if x.bits() < 0x20_0000_0000_0000 {
        assert(x.units() == x.mantissa() * 1);
    }
    if x.negative() {
        assert(opposite.bits() == x.bits() - 0x8000_0000_0000_0000);
    } else {
        assert(opposite.bits() == x.bits() + 0x8000_0000_0000_0000);
    }
    assert(opposite.fraction() == x.fraction());
    assert(opposite.biased() == x.biased());
}

/// A spread factor from zero to one is kept as it is, and so is NaN. One below
/// zero becomes zero, one above one becomes one.
pub proof fn law_factors_are_clamped(factor: Binary64)
    ensures
        factor.finite() && !factor.negative() && factor.units() <= pow2(1074)
            ==> policy::clamped_factor(factor) == factor.bits(),
        factor.nan() ==> policy::clamped_factor(factor) == factor.bits(),
        factor.bits() == 0x8000_0000_0000_0000 ==> policy::clamped_factor(factor) == factor.bits(),
        !factor.nan() && factor.negative() && factor.bits() != 0x8000_0000_0000_0000
            ==> policy::clamped_factor(factor) == 0,
        factor.finite() && !factor.negative() && factor.units() > pow2(1074)
            ==> policy::clamped_factor(factor) == 0x3ff0_0000_0000_0000,
        factor.positive() && factor.infinite() ==> policy::clamped_factor(factor)
            == 0x3ff0_0000_0000_0000,
{
    rounding::lemma_pow2_mono(0, 1074);
    if factor.bits() == 0 {
        assert(factor.units() == 0) by (nonlinear_arith)
            requires
                factor.units() == factor.mantissa() * pow2(factor.shift()),
                factor.mantissa() == 0,
        ;
    }
}

/// A constant policy stays as it is when it is reset.
pub proof fn law_constant_reset(pre: Constant, post: Constant)
    requires
        Constant::rewinds(&pre, &post),
    ensures
        post.delay() == pre.delay(),
{
}

/// A call of a backoff hands out its interval, spread by one draw of its source
/// if there is anything to spread, and multiplies the interval. A multiplier
/// that is NaN, infinite or not above zero leaves it as it is.
pub proof fn law_backoff_step<J: Jitter>(
    pre: ExponentialBackoff<J>,
    post: ExponentialBackoff<J>,
    answer: Option<Duration>,
)
    requires
        ExponentialBackoff::<J>::advances(&pre, &post, answer),
    ensures
        answer is Some,
        time::nanos(pre.nominal()) == 0 || (!pre.spread().nan() && !pre.spread().positive())
            ==> answer == Some(pre.nominal()) && post.source() == pre.source(),
        time::nanos(pre.nominal()) > 0 && (pre.spread().nan() || pre.spread().positive())
            ==> exists|unit: Binary64| #[trigger]
            J::draws(&pre.source(), &post.source(), unit) && jitter::in_unit_range(unit)
                && jitter::jittered_to(pre.nominal(), pre.spread(), unit, answer->0),
        pre.multiplier().finite() && pre.multiplier().positive() ==> time::nanos(post.nominal())
            == util::scaled(time::nanos(pre.nominal()), pre.multiplier()),
        !pre.multiplier().finite() || !pre.multiplier().positive() ==> post.nominal()
            == pre.nominal(),
        post.initial() == pre.initial(),
        post.multiplier() == pre.multiplier(),
        post.spread() == pre.spread(),
{
    law_apply_draws_once(
        pre.source(),
        post.source(),
        pre.nominal(),
        pre.spread(),
        answer->0,
    );
}

/// An attempt cap with attempts left hands on the answer of the wrapped policy,
/// whatever it is, and counts it if it is a delay. Without any left, it answers
/// with none and leaves the wrapped policy alone.
pub proof fn law_attempt_cap_step<P: BackoffPolicy>(
    pre: MaxAttempts<P>,
    post: MaxAttempts<P>,
    answer: Option<Duration>,
)
    requires
        MaxAttempts::<P>::advances(&pre, &post, answer),
    ensures
        pre.used() < pre.limit() ==> P::advances(&pre.wrapped(), &post.wrapped(), answer),
        pre.used() < pre.limit() && answer is Some ==> post.used() == pre.used() + 1,
        answer is None ==> post.used() == pre.used(),
        pre.used() >= pre.limit() ==> answer is None && post.wrapped() == pre.wrapped(),
        post.limit() == pre.limit(),
{
}

/// A delay cap hands out exactly what the wrapped policy does where that is at
/// most the cap, and the cap where it is more. Where the wrapped policy has no
/// delay, neither has the cap.
pub proof fn law_delay_cap_step<P: BackoffPolicy>(
    pre: WithMaxDelay<P>,
    post: WithMaxDelay<P>,
    answer: Option<Duration>,
)
    requires
        WithMaxDelay::<P>::advances(&pre, &post, answer),
    ensures
        answer matches Some(delay) ==> exists|inner: Duration| #[trigger]
            P::advances(&pre.wrapped(), &post.wrapped(), Some(inner)) && (time::nanos(inner)
                <= time::nanos(pre.cap()) ==> delay == inner) && (time::nanos(inner) > time::nanos(
                pre.cap(),
            ) ==> delay == pre.cap()),
        answer is None ==> P::advances(&pre.wrapped(), &post.wrapped(), None),
        post.cap() == pre.cap(),
{
    if let Some(delay) = answer {
        let inner = choose|inner: Duration|
            #![trigger time::shorter_of(inner, pre.cap())]
            P::advances(&pre.wrapped(), &post.wrapped(), Some(inner)) && delay
                == time::shorter_of(inner, pre.cap());
        assert(P::advances(&pre.wrapped(), &post.wrapped(), Some(inner)));
    }
}

/// Where what a wrapped policy hands out depends on its state alone, a delay
/// cap hands out the smaller of that and the cap.
pub proof fn law_delay_cap_is_the_smaller<P: BackoffPolicy>(
    alike: spec_fn(P, P) -> bool,
    pre: WithMaxDelay<P>,
    post: WithMaxDelay<P>,
    answer: Option<Duration>,
    inner_pre: P,
    inner_post: P,
    inner: Option<Duration>,
)
    requires
        policy::in_step(alike),
        alike(pre.wrapped(), inner_pre),
        WithMaxDelay::<P>::advances(&pre, &post, answer),
        P::advances(&inner_pre, &inner_post, inner),
    ensures
        alike(post.wrapped(), inner_post),
        answer is Some <==> inner is Some,
        inner is Some && time::nanos(inner->0) <= time::nanos(pre.cap()) ==> time::nanos(answer->0)
            == time::nanos(inner->0),
        inner is Some && time::nanos(inner->0) > time::nanos(pre.cap()) ==> time::nanos(answer->0)
            == time::nanos(pre.cap()),
{
    law_delay_cap_step(pre, post, answer);
    if let Some(delay) = answer {
        let d = choose|d: Duration| #[trigger]
            P::advances(&pre.wrapped(), &post.wrapped(), Some(d)) && (time::nanos(d)
                <= time::nanos(pre.cap()) ==> delay == d) && (time::nanos(d) > time::nanos(
                pre.cap(),
            ) ==> delay == pre.cap());
        assert(policy::same_delay(Some(d), inner));
    } else {
        assert(policy::same_delay(None, inner));
    }
}

/// A reset of a delay cap resets the wrapped policy and keeps the cap.
pub proof fn law_delay_cap_reset<P: BackoffPolicy>(pre: WithMaxDelay<P>, post: WithMaxDelay<P>)
    requires
        WithMaxDelay::<P>::rewinds(&pre, &post),
    ensures
        P::rewinds(&pre.wrapped(), &post.wrapped()),
        post.cap() == pre.cap(),
{
}

/// A budget asks its clock how much time has gone since its start, which is the
/// instant of its first call. Within the budget, the wrapped policy answers.
pub proof fn law_budget_step<P: BackoffPolicy, C: Clock>(
    pre: MaxElapsedTime<P, C>,
    post: MaxElapsedTime<P, C>,
    answer: Option<Duration>,
    now: C::Instant,
    elapsed: Duration,
)
    requires
        pre.advances_at(&post, answer, now, elapsed),
    ensures
        pre.started() matches Some(start) ==> pre.clock().measures(start, now, elapsed)
            && post.started() == Some(start),
        pre.started() is None ==> pre.clock().measures(now, now, elapsed) && post.started() == Some(
            now,
        ),
        time::nanos(elapsed) >= time::nanos(pre.budget()) ==> answer is None && post.wrapped()
            == pre.wrapped(),
        time::nanos(elapsed) < time::nanos(pre.budget()) ==> P::advances(
            &pre.wrapped(),
            &post.wrapped(),
            answer,
        ),
        post.clock() == pre.clock(),
        post.budget() == pre.budget(),
{
}

/// A call of a budget is decided at some instant that its clock reads.
pub proof fn law_budget_reads_its_clock<P: BackoffPolicy, C: Clock>(
    pre: MaxElapsedTime<P, C>,
    post: MaxElapsedTime<P, C>,
    answer: Option<Duration>,
)
    requires
        MaxElapsedTime::<P, C>::advances(&pre, &post, answer),
    ensures
        exists|now: C::Instant, elapsed: Duration|
            pre.clock().reads(now) && #[trigger] pre.advances_at(&post, answer, now, elapsed),
{
}

/// A box of a policy does what the policy does.
pub proof fn law_boxes_forward<P: BackoffPolicy>(pre: Box<P>, post: Box<P>, answer: Option<Duration>)
    ensures
        Box::<P>::advances(&pre, &post, answer) <==> P::advances(&*pre, &*post, answer),
        Box::<P>::rewinds(&pre, &post) <==> P::rewinds(&*pre, &*post),
{
}

/// A loop over a host ends with one more attempt, from the state that its run
/// has led to, and gives back what that attempt came out as. The policy is left
/// as that attempt found it, or asked once more and out of delays.
pub proof fn law_host_loop_ends<P, H, B, C>(
    hosts: Seq<H>,
    host_post: H,
    policies: Seq<P>,
    post: P,
    result: Result<B, RetryError<C>>,
) where P: BackoffPolicy, H: Host<B, C>
    requires
        exec::host_ends(hosts, host_post, policies, post, result),
    ensures
        result matches Ok(value) ==> H::attempts(
            &hosts.last(),
            &host_post,
            ControlFlow::<B, C>::Break(value),
        ) && post == policies.last(),
        result matches Err(RetryError::Exhausted(state)) ==> H::attempts(
            &hosts.last(),
            &host_post,
            ControlFlow::<B, C>::Continue(state),
        ),
        result is Err && policies.len() <= u128::MAX ==> P::advances(
            &policies.last(),
            &post,
            None,
        ),
{
}

/// Each round of a loop over a host is one failed attempt, one delay of the
/// policy and one wait of that length, and the next round starts from there.
pub proof fn law_host_rounds<P, H, B, C>(
    hosts: Seq<H>,
    tried: Seq<H>,
    policies: Seq<P>,
    failures: Seq<C>,
    delays: Seq<Duration>,
    i: int,
) where P: BackoffPolicy, H: Host<B, C>
    requires
        exec::is_host_run::<P, H, B, C>(hosts, tried, policies, failures, delays),
        0 <= i < delays.len(),
    ensures
        hosts.len() == delays.len() + 1,
        policies.len() == delays.len() + 1,
        H::attempts(&hosts[i], &tried[i], ControlFlow::<B, C>::Continue(failures[i])),
        P::advances(&policies[i], &policies[i + 1], Some(delays[i])),
        H::sleeps(&tried[i], &hosts[i + 1], delays[i]),
{
    let failure = failures[i];
}

/// Up to the `j`-th attempt of a loop over two closures, the operation was
/// called `j` times and the sleep with the first `j` delays, in this order and
/// never otherwise.
pub proof fn law_calls_alternate<P, B, C, Op, Sleep>(
    hosts: Seq<Closures<Op, Sleep, B, C>>,
    tried: Seq<Closures<Op, Sleep, B, C>>,
    policies: Seq<P>,
    failures: Seq<C>,
    delays: Seq<Duration>,
    j: int,
) where P: BackoffPolicy, Op: FnMut() -> ControlFlow<B, C>, Sleep: FnMut(Duration)
    requires
        exec::is_host_run::<P, Closures<Op, Sleep, B, C>, B, C>(
            hosts,
            tried,
            policies,
            failures,
            delays,
        ),
        0 <= j <= delays.len(),
    ensures
        hosts[j].operation().turns() == hosts[0].operation().turns() + j,
        hosts[j].operation().entries() == hosts[0].operation().entries() + Seq::new(
            j as nat,
            |i: int| ControlFlow::<B, C>::Continue(failures[i]),
        ),
        hosts[j].pause().turns() == hosts[0].pause().turns() + j,
        hosts[j].pause().entries() == hosts[0].pause().entries() + delays.take(j),
        j < delays.len() ==> tried[j].operation().turns() == hosts[0].operation().turns() + j + 1,
        j < delays.len() ==> tried[j].pause() == hosts[j].pause(),
        hosts[j].operation().callee() == hosts[0].operation().callee(),
        hosts[j].pause().callee() == hosts[0].pause().callee(),
    decreases j,
{
    if j < delays.len() {
        let failure = failures[j];
    }
    if j > 0 {
        law_calls_alternate(hosts, tried, policies, failures, delays, j - 1);
        let failure = failures[j - 1];
        assert(delays.take(j) == delays.take(j - 1).push(delays[j - 1]));
        let more = Seq::new(j as nat, |i: int| ControlFlow::<B, C>::Continue(failures[i]));
        let less = Seq::new((j - 1) as nat, |i: int| ControlFlow::<B, C>::Continue(failures[i]));
        assert(more == less.push(ControlFlow::<B, C>::Continue(failures[j - 1])));
        assert(hosts[j].operation().entries() == hosts[0].operation().entries() + more);
        assert(hosts[j].pause().entries() == hosts[0].pause().entries() + delays.take(j));
    } else {
        assert(hosts[0].operation().entries() + Seq::new(
            0,
            |i: int| ControlFlow::<B, C>::Continue(failures[i]),
        ) == hosts[0].operation().entries());
        assert(hosts[0].pause().entries() + delays.take(0) == hosts[0].pause().entries());
    }
}

/// Over a whole loop, what the sleep was called with is exactly what the policy
/// handed out, and the operation was called once more than that. Its last
/// outcome is the result.
pub proof fn law_closures_are_called_in_turn<P, B, C, Op, Sleep>(
    first: Closures<Op, Sleep, B, C>,
    last: Closures<Op, Sleep, B, C>,
    policies: Seq<P>,
    failures: Seq<C>,
    delays: Seq<Duration>,
    post: P,
    result: Result<B, RetryError<C>>,
) where P: BackoffPolicy, Op: FnMut() -> ControlFlow<B, C>, Sleep: FnMut(Duration)
    requires
        exec::calls_in_turn(first, last, policies, failures, delays, post, result),
    ensures
        policy::hands_out(policies, delays),
        last.pause().turns() == first.pause().turns() + delays.len(),
        last.pause().entries() == first.pause().entries() + delays,
        last.operation().turns() == first.operation().turns() + delays.len() + 1,
        last.operation().entries().len() == first.operation().entries().len() + delays.len() + 1,
        forall|i: int|
            0 <= i < delays.len() ==> #[trigger] last.operation().entries()[first.operation().entries().len()
                + i] == ControlFlow::<B, C>::Continue(failures[i]),
        result matches Ok(value) ==> last.operation().entries().last() == ControlFlow::<
            B,
            C,
        >::Break(value),
        result matches Err(RetryError::Exhausted(state)) ==> last.operation().entries().last()
            == ControlFlow::<B, C>::Continue(state),
{
    let (hosts, tried) = choose|
        hosts: Seq<Closures<Op, Sleep, B, C>>,
        tried: Seq<Closures<Op, Sleep, B, C>>,
    |
        #![trigger exec::is_host_run::<P, Closures<Op, Sleep, B, C>, B, C>(hosts, tried, policies, failures, delays)]
        exec::is_host_run::<P, Closures<Op, Sleep, B, C>, B, C>(
            hosts,
            tried,
            policies,
            failures,
            delays,
        ) && hosts[0] == first && exec::host_ends(hosts, last, policies, post, result);
    let n = delays.len() as int;
    law_calls_alternate(hosts, tried, policies, failures, delays, n);
    law_host_loop_ends(hosts, last, policies, post, result);
    assert(delays.take(n) == delays);
    assert forall|i: int| 0 <= i < delays.len() implies P::advances(
        &policies[i],
        &policies[i + 1],
        Some(#[trigger] delays[i]),
    ) by {
        let failure = failures[i];
    }
}

/// A loop that starts with closures which were not called yet calls the sleep
/// with the delays of its policy and with nothing else.
pub proof fn law_sleeps_are_the_delays<P, B, C, Op, Sleep>(
    operation: Op,
    sleep: Sleep,
    first: Closures<Op, Sleep, B, C>,
    last: Closures<Op, Sleep, B, C>,
    closed: Closures<Op, Sleep, B, C>,
    policies: Seq<P>,
    failures: Seq<C>,
    delays: Seq<Duration>,
    post: P,
    result: Result<B, RetryError<C>>,
) where P: BackoffPolicy, Op: FnMut() -> ControlFlow<B, C>, Sleep: FnMut(Duration)
    requires
        first.fresh(operation, sleep),
        exec::calls_in_turn(first, last, policies, failures, delays, post, result),
        closed.closes(&last),
    ensures
        policy::hands_out(policies, delays),
        closed.pause().entries() == delays,
        closed.pause().turns() == delays.len(),
        closed.operation().turns() == delays.len() + 1,
        closed.operation().entries().len() == delays.len() + 1,
        closed.operation().callee() == operation,
        closed.pause().callee() == sleep,
{
    law_closures_are_called_in_turn(first, last, policies, failures, delays, post, result);
    assert(first.pause().entries() + delays == delays);
    let (hosts, tried) = choose|
        hosts: Seq<Closures<Op, Sleep, B, C>>,
        tried: Seq<Closures<Op, Sleep, B, C>>,
    |
        #![trigger exec::is_host_run::<P, Closures<Op, Sleep, B, C>, B, C>(hosts, tried, policies, failures, delays)]
        exec::is_host_run::<P, Closures<Op, Sleep, B, C>, B, C>(
            hosts,
            tried,
            policies,
            failures,
            delays,
        ) && hosts[0] == first && exec::host_ends(hosts, last, policies, post, result);
    law_calls_alternate(hosts, tried, policies, failures, delays, delays.len() as int);
}

/// A draw is a number from zero, inclusive, to one, exclusive, and every such
/// number may be drawn.
pub proof fn law_unit_range(unit: Binary64)
    ensures
        jitter::in_unit_range(unit) <==> unit.bits() < 0x3ff0_0000_0000_0000 || unit.bits()
            == 0x8000_0000_0000_0000,
{
    vstd::arithmetic::power2::lemma2_to64();
    vstd::arithmetic::power2::lemma2_to64_rest();
    vstd::arithmetic::power2::lemma_pow2_adds(52, 1022);
    vstd::arithmetic::power2::lemma_pow2_adds(53, 1021);
    let (m, k, u) = (unit.mantissa(), unit.shift(), unit.units());
    rounding::lemma_pow2_mono(0, k);
    if unit.finite() {
        if unit.biased() >= 1023 {
            rounding::lemma_pow2_mono(1022, k);
            assert(u >= pow2(52) * pow2(1022)) by (nonlinear_arith)
                requires
                    u == m * pow2(k),
                    m >= pow2(52),
                    pow2(k) >= pow2(1022),
            ;
        } else {
            rounding::lemma_pow2_mono(k, 1021);
            assert(u < pow2(53) * pow2(1021)) by (nonlinear_arith)
                requires
                    u == m * pow2(k),
                    m < pow2(53),
                    0 < pow2(k) <= pow2(1021),
            ;
        }
        assert(u == 0 <==> m == 0) by (nonlinear_arith)
            requires
                u == m * pow2(k),
                pow2(k) > 0,
        ;
    }
}

} // verus!
