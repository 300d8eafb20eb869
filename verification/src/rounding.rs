//! Rounding to the nearest value, as plain arithmetic on natural numbers.
//!
//! A binary64 number is a whole multiple of 2^-1074. The specifications here
//! measure every magnitude in that unit, so a magnitude is a natural number
//! and an exact result that falls between two such numbers is a quotient of
//! two natural numbers.
use vstd::arithmetic::power2::pow2;
use vstd::prelude::*;

verus! {

/// The whole number nearest to `num / den`; of two equally near, the even one.
pub open spec fn round_half_even(num: nat, den: nat) -> nat {
    let low = num / den;
    let rest = num % den;
    if 2 * rest < den || (2 * rest == den && low % 2 == 0) {
        low
    } else {
        low + 1
    }
}

/// Whether `num / den` fits in 53 bits when counted in steps of `2^k`, and
/// `k` is the smallest such scale.
pub open spec fn is_scale(num: nat, den: nat, k: nat) -> bool {
    &&& num < den * pow2(53 + k)
    &&& k > 0 ==> den * pow2(52 + k) <= num
}

/// The binary64 magnitude nearest to `num / den` units, ties to even.
///
/// The exponent range has no upper end here: a result of `2^2098` units
/// (`2^1024`) or more is one that overflows to infinity.
pub open spec fn nearest(num: nat, den: nat) -> nat {
    let k = choose|k: nat| is_scale(num, den, k);
    round_half_even(num, den * pow2(k)) * pow2(k)
}

/// A quotient below or at a whole number does not round above it.
pub proof fn lemma_round_upper(num: nat, den: nat, c: nat)
    requires
        den > 0,
        num <= c * den,
    ensures
        round_half_even(num, den) <= c,
{
    let low = num / den;
    vstd::arithmetic::div_mod::lemma_fundamental_div_mod(num as int, den as int);
    assert(num == den * low + num % den);
    if low >= c {
        assert(low == c && num % den == 0) by (nonlinear_arith)
            requires
                num == den * low + num % den,
                low >= c,
                num <= c * den,
                den > 0,
        ;
    }
}

/// A quotient at or above a whole number does not round below it.
pub proof fn lemma_round_lower(num: nat, den: nat, c: nat)
    requires
        den > 0,
        c * den <= num,
    ensures
        c <= round_half_even(num, den),
{
    vstd::arithmetic::div_mod::lemma_fundamental_div_mod(num as int, den as int);
    let low = num / den;
    assert(c <= low) by (nonlinear_arith)
        requires
            num == den * low + num % den,
            num % den < den,
            c * den <= num,
            den > 0,
    ;
}

/// Rounding depends on the quotient alone.
pub proof fn lemma_round_cancel(num: nat, den: nat, c: nat)
    requires
        den > 0,
        c > 0,
    ensures
        round_half_even(c * num, c * den) == round_half_even(num, den),
{
    let low = num / den;
    let rest = num % den;
    vstd::arithmetic::div_mod::lemma_fundamental_div_mod(num as int, den as int);
    assert(c * den > 0 && c * num == low * (c * den) + c * rest && c * rest < c * den)
        by (nonlinear_arith)
        requires
            num == den * low + rest,
            rest < den,
            c > 0,
    ;
    vstd::arithmetic::div_mod::lemma_fundamental_div_mod_converse(
        (c * num) as int,
        (c * den) as int,
        low as int,
        (c * rest) as int,
    );
    assert(2 * rest < den <==> 2 * (c * rest) < c * den) by (nonlinear_arith)
        requires
            c > 0,
    ;
    assert(2 * rest == den <==> 2 * (c * rest) == c * den) by (nonlinear_arith)
        requires
            c > 0,
    ;
}

/// A quotient and a remainder determine the division.
pub proof fn lemma_round_parts(num: nat, den: nat, low: nat, rest: nat)
    requires
        num == low * den + rest,
        rest < den,
    ensures
        num / den == low,
        num % den == rest,
{
    vstd::arithmetic::div_mod::lemma_fundamental_div_mod_converse(
        num as int,
        den as int,
        low as int,
        rest as int,
    );
}

/// A quotient has one scale only.
pub proof fn lemma_scale_unique(num: nat, den: nat, j: nat, k: nat)
    requires
        is_scale(num, den, j),
        is_scale(num, den, k),
    ensures
        j == k,
{
    if j < k {
        lemma_pow2_mono(53 + j, 52 + k);
        assert(den * pow2(53 + j) <= den * pow2(52 + k)) by (nonlinear_arith)
            requires
                pow2(53 + j) <= pow2(52 + k),
        ;
    } else if k < j {
        lemma_pow2_mono(53 + k, 52 + j);
        assert(den * pow2(53 + k) <= den * pow2(52 + j)) by (nonlinear_arith)
            requires
                pow2(53 + k) <= pow2(52 + j),
        ;
    }
}

/// Powers of two are positive and increase.
pub proof fn lemma_pow2_mono(a: nat, b: nat)
    requires
        a <= b,
    ensures
        0 < pow2(a) <= pow2(b),
{
    vstd::arithmetic::power2::lemma_pow2_pos(a);
    if a < b {
        vstd::arithmetic::power2::lemma_pow2_strictly_increases(a, b);
    }
}

/// `nearest`, once the scale is known.
pub proof fn lemma_nearest_at(num: nat, den: nat, k: nat)
    requires
        is_scale(num, den, k),
    ensures
        nearest(num, den) == round_half_even(num, den * pow2(k)) * pow2(k),
{
    let j = choose|j: nat| is_scale(num, den, j);
    lemma_scale_unique(num, den, j, k);
}

/// Every quotient has a scale.
pub proof fn lemma_scale_exists(num: nat, den: nat) -> (k: nat)
    requires
        den > 0,
    ensures
        is_scale(num, den, k),
{
    lemma_num_below_pow2(num);
    lemma_pow2_mono(num, 53 + num);
    assert(num < den * pow2(53 + num)) by (nonlinear_arith)
        requires
            num < pow2(53 + num),
            den >= 1,
    ;
    scale_below(num, den, num)
}

proof fn lemma_num_below_pow2(n: nat)
    ensures
        n < pow2(n),
    decreases n,
{
    vstd::arithmetic::power2::lemma_pow2_pos(n);
    if n > 0 {
        lemma_num_below_pow2((n - 1) as nat);
        vstd::arithmetic::power2::lemma_pow2_unfold(n);
    }
}

proof fn scale_below(num: nat, den: nat, top: nat) -> (k: nat)
    requires
        num < den * pow2(53 + top),
    ensures
        is_scale(num, den, k),
    decreases top,
{
    if top == 0 || den * pow2(52 + top) <= num {
        top
    } else {
        assert(53 + (top - 1) as nat == 52 + top);
        scale_below(num, den, (top - 1) as nat)
    }
}

/// `nearest` depends on the quotient alone.
pub proof fn lemma_nearest_cancel(num: nat, den: nat, c: nat)
    requires
        den > 0,
        c > 0,
    ensures
        nearest(c * num, c * den) == nearest(num, den),
{
    let k = lemma_scale_exists(num, den);
    let p = pow2(53 + k);
    let q = pow2(52 + k);
    assert(c * num < (c * den) * p) by (nonlinear_arith)
        requires
            num < den * p,
            c > 0,
    ;
    if k > 0 {
        assert((c * den) * q <= c * num) by (nonlinear_arith)
            requires
                den * q <= num,
                c > 0,
        ;
    }
    lemma_nearest_at(num, den, k);
    lemma_nearest_at(c * num, c * den, k);
    vstd::arithmetic::power2::lemma_pow2_pos(k);
    let s = pow2(k);
    assert(den * s > 0) by (nonlinear_arith)
        requires
            den > 0,
            s > 0,
    ;
    assert((c * den) * s == c * (den * s)) by (nonlinear_arith);
    lemma_round_cancel(num, den * s, c);
}

/// A quotient at most a power of two does not round above it.
pub proof fn lemma_nearest_upper(num: nat, den: nat, j: nat)
    requires
        den > 0,
        num <= den * pow2(j),
    ensures
        nearest(num, den) <= pow2(j),
{
    let k = lemma_scale_exists(num, den);
    lemma_nearest_at(num, den, k);
    vstd::arithmetic::power2::lemma_pow2_pos(k);
    if k > j {
        lemma_pow2_mono(j + 1, 52 + k);
        vstd::arithmetic::power2::lemma_pow2_unfold(j + 1);
        vstd::arithmetic::power2::lemma_pow2_pos(j);
        assert(den * pow2(j) < den * pow2(52 + k)) by (nonlinear_arith)
            requires
                pow2(j) < pow2(52 + k),
                den > 0,
        ;
        assert(false);
    }
    let c = pow2((j - k) as nat);
    let s = pow2(k);
    vstd::arithmetic::power2::lemma_pow2_adds((j - k) as nat, k);
    assert((j - k) as nat + k == j);
    assert(num <= c * (den * s)) by (nonlinear_arith)
        requires
            num <= den * pow2(j),
            pow2(j) == c * s,
    ;
    assert(den * s > 0) by (nonlinear_arith)
        requires
            den > 0,
            s > 0,
    ;
    lemma_round_upper(num, den * s, c);
    assert(round_half_even(num, den * s) * s <= c * s) by (nonlinear_arith)
        requires
            round_half_even(num, den * s) <= c,
    ;
}

/// A magnitude of at most 53 bits at some scale is its own nearest value.
pub proof fn lemma_nearest_exact(mant: nat, shift: nat)
    requires
        mant <= pow2(53),
    ensures
        nearest(mant * pow2(shift), 1) == mant * pow2(shift),
{
    let num = mant * pow2(shift);
    let k = lemma_scale_exists(num, 1);
    lemma_nearest_at(num, 1, k);
    let s = pow2(k);
    vstd::arithmetic::power2::lemma_pow2_pos(k);
    if k <= shift {
        let c = pow2((shift - k) as nat);
        vstd::arithmetic::power2::lemma_pow2_adds((shift - k) as nat, k);
        assert((shift - k) as nat + k == shift);
        assert(num == (mant * c) * (1 * s) + 0) by (nonlinear_arith)
            requires
                num == mant * pow2(shift),
                pow2(shift) == c * s,
        ;
        lemma_round_parts(num, 1 * s, mant * c, 0);
    } else {
        // The scale exceeds `shift` only for `2^53` itself, at `shift + 1`.
        lemma_pow2_mono(53 + shift, 52 + k);
        vstd::arithmetic::power2::lemma_pow2_adds(53, shift);
        assert(num <= pow2(53 + shift)) by (nonlinear_arith)
            requires
                num == mant * pow2(shift),
                mant <= pow2(53),
                pow2(53 + shift) == pow2(53) * pow2(shift),
        ;
        assert(num == pow2(52 + k));
        vstd::arithmetic::power2::lemma_pow2_adds(52, k);
        lemma_round_parts(num, 1 * s, pow2(52), 0);
    }
}

/// Zero rounds to zero.
pub proof fn lemma_nearest_zero(den: nat)
    requires
        den > 0,
    ensures
        nearest(0, den) == 0,
{
    let k = lemma_scale_exists(0, den);
    lemma_nearest_at(0, den, k);
    vstd::arithmetic::power2::lemma_pow2_pos(k);
    let s = pow2(k);
    assert(den * s > 0) by (nonlinear_arith)
        requires
            den > 0,
            s > 0,
    ;
    lemma_round_parts(0, den * s, 0, 0);
    assert(0 * s == 0) by (nonlinear_arith);
}

/// For rounding to a coarser step, a remainder counts only as present or not.
proof fn lemma_round_sticky(whole: nat, rest: nat, den: nat, odd: nat, j: nat)
    requires
        rest < den,
        odd == (if rest > 0 { 1nat } else { 0nat }),
        j >= 1,
    ensures
        round_half_even(whole * den + rest, den * pow2(j)) == round_half_even(
            2 * whole + odd,
            2 * pow2(j),
        ),
{
    let p = pow2(j);
    vstd::arithmetic::power2::lemma_pow2_unfold(j);
    let h = pow2((j - 1) as nat);
    vstd::arithmetic::power2::lemma_pow2_pos((j - 1) as nat);
    let low = whole / p;
    let r = whole % p;
    vstd::arithmetic::div_mod::lemma_fundamental_div_mod(whole as int, p as int);
    assert(whole == low * p + r) by (nonlinear_arith)
        requires
            whole == p * low + r,
    ;
    assert(whole * den + rest == low * (den * p) + (r * den + rest) && r * den + rest < den * p)
        by (nonlinear_arith)
        requires
            whole == low * p + r,
            r + 1 <= p,
            rest < den,
    ;
    assert(2 * whole + odd == low * (2 * p) + (2 * r + odd)) by (nonlinear_arith)
        requires
            whole == low * p + r,
    ;
    lemma_round_parts(whole * den + rest, den * p, low, r * den + rest);
    lemma_round_parts(2 * whole + odd, 2 * p, low, 2 * r + odd);
    if r < h {
        assert(2 * (r * den + rest) < den * p) by (nonlinear_arith)
            requires
                r + 1 <= h,
                p == 2 * h,
                rest < den,
        ;
    } else if r > h {
        assert(2 * (r * den + rest) > den * p) by (nonlinear_arith)
            requires
                r >= h + 1,
                p == 2 * h,
                den > 0,
        ;
    } else {
        assert(2 * (r * den + rest) == den * p + 2 * rest) by (nonlinear_arith)
            requires
                r == h,
                p == 2 * h,
        ;
    }
}

/// A quotient with many leading bits is rounded by its whole part and by
/// whether there is a remainder.
pub proof fn lemma_nearest_sticky(whole: nat, rest: nat, den: nat, c: nat)
    requires
        whole >= pow2(54),
        rest < den,
    ensures
        nearest((whole * den + rest) * pow2(c), den) == nearest(
            (2 * whole + if rest > 0 {
                1nat
            } else {
                0nat
            }) * pow2(c),
            2,
        ),
{
    let odd = if rest > 0 {
        1nat
    } else {
        0nat
    };
    let s = pow2(c);
    let exact = whole * den + rest;
    let num = exact * s;
    vstd::arithmetic::power2::lemma_pow2_pos(c);
    let k = lemma_scale_exists(num, den);
    lemma_nearest_at(num, den, k);
    // The scale exceeds `c`.
    vstd::arithmetic::power2::lemma_pow2_adds(54, c);
    assert(den * pow2(54 + c) <= num) by (nonlinear_arith)
        requires
            num == (whole * den + rest) * s,
            whole >= pow2(54),
            pow2(54 + c) == pow2(54) * s,
    ;
    if 53 + k <= 54 + c {
        lemma_pow2_mono(53 + k, 54 + c);
        assert(den * pow2(53 + k) <= den * pow2(54 + c)) by (nonlinear_arith)
            requires
                pow2(53 + k) <= pow2(54 + c),
        ;
        assert(false);
    }
    let j = (k - c) as nat;
    let top = pow2(53 + j);
    let bottom = pow2(52 + j);
    vstd::arithmetic::power2::lemma_pow2_adds(53 + j, c);
    vstd::arithmetic::power2::lemma_pow2_adds(52 + j, c);
    vstd::arithmetic::power2::lemma_pow2_adds(j, c);
    assert(53 + j + c == 53 + k);
    assert(52 + j + c == 52 + k);
    assert(j + c == k);
    let num2 = (2 * whole + odd) * s;
    assert(whole < top) by (nonlinear_arith)
        requires
            (whole * den + rest) * s < den * (top * s),
            s > 0,
            den > 0,
    ;
    assert(bottom <= whole) by (nonlinear_arith)
        requires
            den * (bottom * s) <= (whole * den + rest) * s,
            rest < den,
            s > 0,
            den > 0,
    ;
    assert(num2 < 2 * (top * s)) by (nonlinear_arith)
        requires
            num2 == (2 * whole + odd) * s,
            whole + 1 <= top,
            odd <= 1,
            s > 0,
    ;
    assert(2 * (bottom * s) <= num2) by (nonlinear_arith)
        requires
            num2 == (2 * whole + odd) * s,
            bottom <= whole,
    ;
    lemma_nearest_at(num2, 2, k);
    vstd::arithmetic::power2::lemma_pow2_pos(j);
    assert(den * pow2(j) > 0) by (nonlinear_arith)
        requires
            den > 0,
            pow2(j) > 0,
    ;
    lemma_round_cancel(exact, den * pow2(j), s);
    lemma_round_cancel(2 * whole + odd, 2 * pow2(j), s);
    assert(s * exact == num && s * (2 * whole + odd) == num2 && s * (den * pow2(j)) == den * pow2(k)
        && s * (2 * pow2(j)) == 2 * pow2(k)) by (nonlinear_arith)
        requires
            num == exact * s,
            num2 == (2 * whole + odd) * s,
            pow2(k) == pow2(j) * s,
    ;
    lemma_round_sticky(whole, rest, den, odd, j);
}

/// Rounding moves a quotient by at most half a step.
pub proof fn lemma_round_error(num: nat, den: nat)
    requires
        den > 0,
    ensures
        -(den as int) <= 2 * (round_half_even(num, den) * den - num) <= den,
{
    let low = num / den;
    let rest = num % den;
    vstd::arithmetic::div_mod::lemma_fundamental_div_mod(num as int, den as int);
    assert(low * den == num - rest && (low + 1) * den == num - rest + den) by (nonlinear_arith)
        requires
            num == den * low + rest,
    ;
}

/// The nearest value is at most half a step of its scale away.
pub proof fn lemma_nearest_error(num: nat, den: nat, k: nat)
    requires
        den > 0,
        is_scale(num, den, k),
    ensures
        -(den * pow2(k)) <= 2 * (nearest(num, den) * den - num) <= den * pow2(k),
{
    let s = pow2(k);
    let m = round_half_even(num, den * s);
    vstd::arithmetic::power2::lemma_pow2_pos(k);
    lemma_nearest_at(num, den, k);
    assert(den * s > 0) by (nonlinear_arith)
        requires
            den > 0,
            s > 0,
    ;
    lemma_round_error(num, den * s);
    assert(m * (den * s) == (m * s) * den) by (nonlinear_arith);
}

/// A smaller quotient has no larger a scale.
pub proof fn lemma_scale_mono(num: nat, den: nat, k: nat, bound: nat)
    requires
        den > 0,
        is_scale(num, den, k),
        num < den * pow2(53 + bound),
    ensures
        k <= bound,
{
    if k > bound {
        lemma_pow2_mono(53 + bound, 52 + k);
        assert(den * pow2(53 + bound) <= den * pow2(52 + k)) by (nonlinear_arith)
            requires
                pow2(53 + bound) <= pow2(52 + k),
        ;
    }
}

/// A quotient of at least a power of two does not round below it.
pub proof fn lemma_nearest_lower(num: nat, den: nat, j: nat)
    requires
        den > 0,
        den * pow2(j) <= num,
    ensures
        pow2(j) <= nearest(num, den),
{
    let k = lemma_scale_exists(num, den);
    lemma_nearest_at(num, den, k);
    let s = pow2(k);
    vstd::arithmetic::power2::lemma_pow2_pos(k);
    assert(den * s > 0) by (nonlinear_arith)
        requires
            den > 0,
            s > 0,
    ;
    if k <= j {
        let c = pow2((j - k) as nat);
        vstd::arithmetic::power2::lemma_pow2_adds((j - k) as nat, k);
        assert((j - k) as nat + k == j);
        assert(c * (den * s) <= num) by (nonlinear_arith)
            requires
                den * pow2(j) <= num,
                pow2(j) == c * s,
        ;
        lemma_round_lower(num, den * s, c);
        assert(c * s <= round_half_even(num, den * s) * s) by (nonlinear_arith)
            requires
                c <= round_half_even(num, den * s),
        ;
    } else {
        vstd::arithmetic::power2::lemma_pow2_adds(52, k);
        assert(pow2(52) * (den * s) <= num) by (nonlinear_arith)
            requires
                den * pow2(52 + k) <= num,
                pow2(52 + k) == pow2(52) * s,
        ;
        lemma_round_lower(num, den * s, pow2(52));
        assert(pow2(52) * s <= round_half_even(num, den * s) * s) by (nonlinear_arith)
            requires
                pow2(52) <= round_half_even(num, den * s),
        ;
        lemma_pow2_mono(j, 52 + k);
    }
}

/// From `2^52` units on, rounding moves a quotient by at most one part in
/// `2^53`.
pub proof fn lemma_relative_error(num: nat, den: nat)
    requires
        den > 0,
        num == 0 || den * pow2(52) <= num,
    ensures
        -(num as int) <= pow2(53) * (nearest(num, den) * den - num) <= num,
{
    if num == 0 {
        lemma_nearest_zero(den);
        assert(pow2(53) * (0 * den - 0) == 0) by (nonlinear_arith);
        return;
    }
    let k = lemma_scale_exists(num, den);
    lemma_nearest_error(num, den, k);
    let p = pow2(k);
    let e = nearest(num, den) * den - num;
    vstd::arithmetic::power2::lemma_pow2_unfold(53);
    vstd::arithmetic::power2::lemma_pow2_adds(52, k);
    vstd::arithmetic::power2::lemma_pow2_pos(52);
    if k == 0 {
        vstd::arithmetic::power2::lemma2_to64();
    }
    assert(den * (pow2(52) * p) <= num);
    assert(pow2(52) * (2 * e) <= pow2(52) * (den * p)) by (nonlinear_arith)
        requires
            2 * e <= den * p,
            pow2(52) > 0,
    ;
    assert(pow2(52) * (-2 * e) <= pow2(52) * (den * p)) by (nonlinear_arith)
        requires
            -2 * e <= den * p,
            pow2(52) > 0,
    ;
    assert(pow2(52) * (den * p) == den * (pow2(52) * p)) by (nonlinear_arith);
    assert(pow2(53) * e == pow2(52) * (2 * e) && pow2(52) * (-2 * e) == -(pow2(53) * e))
        by (nonlinear_arith)
        requires
            pow2(53) == 2 * pow2(52),
    ;
}

/// A larger numerator does not round lower.
pub proof fn lemma_round_mono(a: nat, b: nat, den: nat)
    requires
        den > 0,
        a <= b,
    ensures
        round_half_even(a, den) <= round_half_even(b, den),
{
    let (low, rest) = (a / den, a % den);
    let (top, over) = (b / den, b % den);
    vstd::arithmetic::div_mod::lemma_fundamental_div_mod(a as int, den as int);
    vstd::arithmetic::div_mod::lemma_fundamental_div_mod(b as int, den as int);
    assert(low <= top) by (nonlinear_arith)
        requires
            den * low + rest <= den * top + over,
            over < den,
            rest >= 0,
    ;
    if low == top {
        assert(rest <= over);
    }
}

/// A quotient less than half a step away from a whole number rounds to it.
pub proof fn lemma_round_close(num: nat, den: nat, c: nat)
    requires
        -den < 2 * (num - c * den) < den,
    ensures
        round_half_even(num, den) == c,
{
    if num >= c * den {
        lemma_round_parts(num, den, c, (num - c * den) as nat);
    } else {
        assert(c >= 1) by (nonlinear_arith)
            requires
                num < c * den,
                num >= 0,
        ;
        assert((c - 1) * den == c * den - den) by (nonlinear_arith);
        lemma_round_parts(num, den, (c - 1) as nat, (num - (c * den - den)) as nat);
    }
}

/// The nearest value is a whole number of steps of its scale, of 53 bits.
pub proof fn lemma_nearest_form(num: nat, den: nat) -> (r: (nat, nat))
    requires
        den > 0,
    ensures
        nearest(num, den) == r.0 * pow2(r.1),
        r.0 <= pow2(53),
        r.1 > 0 ==> pow2(52) <= r.0,
{
    let k = lemma_scale_exists(num, den);
    let s = pow2(k);
    lemma_nearest_at(num, den, k);
    vstd::arithmetic::power2::lemma_pow2_pos(k);
    vstd::arithmetic::power2::lemma_pow2_adds(53, k);
    vstd::arithmetic::power2::lemma_pow2_adds(52, k);
    assert(den * s > 0) by (nonlinear_arith)
        requires
            den > 0,
            s > 0,
    ;
    assert(num <= pow2(53) * (den * s)) by (nonlinear_arith)
        requires
            num < den * (pow2(53) * s),
    ;
    lemma_round_upper(num, den * s, pow2(53));
    if k > 0 {
        assert(pow2(52) * (den * s) <= num) by (nonlinear_arith)
            requires
                den * (pow2(52) * s) <= num,
        ;
        lemma_round_lower(num, den * s, pow2(52));
    }
    (round_half_even(num, den * s), k)
}

/// A quotient of at least a magnitude of 53 bits does not round below it.
pub proof fn lemma_nearest_above(num: nat, den: nat, mant: nat, shift: nat)
    requires
        den > 0,
        mant <= pow2(53),
        den * (mant * pow2(shift)) <= num,
    ensures
        mant * pow2(shift) <= nearest(num, den),
{
    let k = lemma_scale_exists(num, den);
    lemma_nearest_at(num, den, k);
    let s = pow2(k);
    vstd::arithmetic::power2::lemma_pow2_pos(k);
    assert(den * s > 0) by (nonlinear_arith)
        requires
            den > 0,
            s > 0,
    ;
    if k <= shift {
        let up = pow2((shift - k) as nat);
        let c = mant * up;
        vstd::arithmetic::power2::lemma_pow2_adds((shift - k) as nat, k);
        assert((shift - k) as nat + k == shift);
        assert(c * s == mant * pow2(shift) && c * (den * s) <= num) by (nonlinear_arith)
            requires
                c == mant * up,
                pow2(shift) == up * s,
                den * (mant * pow2(shift)) <= num,
        ;
        lemma_round_lower(num, den * s, c);
        assert(c * s <= round_half_even(num, den * s) * s) by (nonlinear_arith)
            requires
                c <= round_half_even(num, den * s),
        ;
    } else {
        lemma_nearest_lower(num, den, 52 + k);
        lemma_pow2_mono(53 + shift, 52 + k);
        vstd::arithmetic::power2::lemma_pow2_adds(53, shift);
        assert(mant * pow2(shift) <= pow2(53) * pow2(shift)) by (nonlinear_arith)
            requires
                mant <= pow2(53),
        ;
    }
}

} // verus!
