//! Binary64 floating-point numbers, held as their bit pattern.
//!
//! Multipliers, spread factors and random draws are binary64 numbers. The
//! arithmetic on them is exact integer arithmetic followed by one rounding to
//! the nearest number, ties to even, as IEEE 754 prescribes. The result is the
//! same on every machine.
use vstd::arithmetic::power2::pow2;
use vstd::prelude::*;

use crate::rounding;
use crate::time;
use crate::util;

verus! {

/// An IEEE 754 binary64 number, held as its bit pattern.
///
/// A number from hardware floating point comes in by its `to_bits` and goes out
/// through `from_bits`. Two numbers are equal here if their bits are.
#[derive(Debug, Clone, Copy, PartialEq, Eq, Structural)]
pub struct Binary64 {
    bits: u64,
}

impl Binary64 {
    /// The bit pattern.
    pub closed spec fn bits(&self) -> u64 {
        self.bits
    }

    /// The sign bit.
    pub open spec fn negative(&self) -> bool {
        self.bits() >= 0x8000_0000_0000_0000
    }

    /// The eleven exponent bits.
    pub open spec fn biased(&self) -> nat {
        ((self.bits() / 0x10_0000_0000_0000) % 0x800) as nat
    }

    /// The fifty-two fraction bits.
    pub open spec fn fraction(&self) -> nat {
        (self.bits() % 0x10_0000_0000_0000) as nat
    }

    /// Whether this is not a number.
    pub open spec fn nan(&self) -> bool {
        self.biased() == 0x7ff && self.fraction() != 0
    }

    /// Whether this is an infinity.
    pub open spec fn infinite(&self) -> bool {
        self.biased() == 0x7ff && self.fraction() == 0
    }

    /// Whether this is neither an infinity nor NaN.
    pub open spec fn finite(&self) -> bool {
        self.biased() < 0x7ff
    }

    /// The significand, with the bit that normal numbers leave out.
    pub open spec fn mantissa(&self) -> nat {
        if self.biased() == 0 {
            self.fraction()
        } else {
            0x10_0000_0000_0000 + self.fraction()
        }
    }

    /// How far the significand is shifted, in units of `2^-1074`.
    pub open spec fn shift(&self) -> nat {
        if self.biased() == 0 {
            0
        } else {
            (self.biased() - 1) as nat
        }
    }

    /// The magnitude of a finite number, in units of `2^-1074`.
    pub open spec fn units(&self) -> nat {
        self.mantissa() * pow2(self.shift())
    }

    /// Whether the number is greater than zero.
    pub open spec fn positive(&self) -> bool {
        !self.nan() && !self.negative() && self.bits() != 0
    }

    /// Whether the number is finite and not negative.
    pub open spec fn magnitude(&self) -> bool {
        self.finite() && !self.negative()
    }

    /// Whether the number is the non-negative one of `units` units: a finite
    /// one below `2^1024`, infinity from there on.
    pub open spec fn represents(&self, units: nat) -> bool {
        &&& !self.negative()
        &&& if units < pow2(2098) {
            self.finite() && self.units() == units
        } else {
            self.infinite()
        }
    }

    /// The number with a given bit pattern.
    pub fn from_bits(bits: u64) -> (r: Self)
        ensures
            r.bits() == bits,
    {
        Binary64 { bits }
    }

    /// The bit pattern.
    pub fn to_bits(self) -> (r: u64)
        ensures
            r == self.bits(),
    {
        self.bits
    }

    /// Whether this is not a number.
    pub fn is_nan(self) -> (r: bool)
        ensures
            r == self.nan(),
    {
        self.bits / 0x10_0000_0000_0000 % 0x800 == 0x7ff && self.bits % 0x10_0000_0000_0000 != 0
    }

    /// Whether this is an infinity.
    pub fn is_infinite(self) -> (r: bool)
        ensures
            r == self.infinite(),
    {
        self.bits / 0x10_0000_0000_0000 % 0x800 == 0x7ff && self.bits % 0x10_0000_0000_0000 == 0
    }

    /// Whether the number is greater than zero.
    pub fn is_positive(self) -> (r: bool)
        ensures
            r == self.positive(),
    {
        !self.is_nan() && self.bits < 0x8000_0000_0000_0000 && self.bits != 0
    }

    /// The significand and the shift of a finite number.
    fn parts(self) -> (r: (u64, u32))
        requires
            self.magnitude(),
        ensures
            r.0 == self.mantissa(),
            r.1 == self.shift(),
            r.0 < 0x20_0000_0000_0000,
            r.1 <= 2045,
            r.1 > 0 ==> r.0 >= 0x10_0000_0000_0000,
    {
        let biased: u64 = self.bits / 0x10_0000_0000_0000 % 0x800;
        let fraction: u64 = self.bits % 0x10_0000_0000_0000;
        if biased == 0 {
            (fraction, 0)
        } else {
            (0x10_0000_0000_0000 + fraction, (biased - 1) as u32)
        }
    }

    /// The number with a given significand and shift.
    fn from_parts(mant: u64, shift: u32) -> (r: Self)
        requires
            mant < 0x20_0000_0000_0000,
            shift <= 2045,
            shift > 0 ==> mant >= 0x10_0000_0000_0000,
        ensures
            r.magnitude(),
            r.mantissa() == mant,
            r.shift() == shift,
    {
        if mant < 0x10_0000_0000_0000 {
            Binary64 { bits: mant }
        } else {
            Binary64 { bits: (shift as u64 + 1) * 0x10_0000_0000_0000 + (mant - 0x10_0000_0000_0000) }
        }
    }
}

/// The number of bits of a positive number.
fn bit_length(n: u128) -> (l: u32)
    requires
        n > 0,
    ensures
        1 <= l <= 128,
        pow2((l - 1) as nat) <= n < pow2(l as nat),
{
    let mut rest: u128 = n;
    let mut l: u32 = 1;
    proof {
        vstd::arithmetic::power2::lemma2_to64();
        assert(pow2((l - 1) as nat) == 1);
    }
    while rest > 1
        invariant
            1 <= l,
            1 <= rest <= n,
            rest * pow2((l - 1) as nat) <= n < (rest + 1) * pow2((l - 1) as nat),
        decreases rest,
    {
        let half: u128 = rest / 2;
        proof {
            let p = pow2((l - 1) as nat);
            vstd::arithmetic::power2::lemma_pow2_unfold(l as nat);
            vstd::arithmetic::power2::lemma_pow2_pos((l - 1) as nat);
            assert(half * (2 * p) <= n < (half + 1) * (2 * p)) by (nonlinear_arith)
                requires
                    rest * p <= n < (rest + 1) * p,
                    2 * half <= rest <= 2 * half + 1,
            ;
            if l >= 128 {
                rounding::lemma_pow2_mono(127, (l - 1) as nat);
                lemma_pow2_128();
                assert(2 * p <= rest * p) by (nonlinear_arith)
                    requires
                        rest >= 2,
                ;
                assert(false);
            }
        }
        rest = half;
        l = l + 1;
    }
    proof {
        vstd::arithmetic::power2::lemma_pow2_unfold(l as nat);
        if l > 128 {
            rounding::lemma_pow2_mono(128, (l - 1) as nat);
            lemma_pow2_128();
        }
    }
    l
}

proof fn lemma_pow2_128()
    ensures
        pow2(127) == 0x8000_0000_0000_0000_0000_0000_0000_0000,
        pow2(128) == 0x1_0000_0000_0000_0000_0000_0000_0000_0000,
{
    vstd::arithmetic::power2::lemma2_to64();
    vstd::arithmetic::power2::lemma_pow2_adds(64, 64);
    vstd::arithmetic::power2::lemma_pow2_unfold(128);
}

/// `2^w`.
fn power_of_two(w: u32) -> (r: u128)
    requires
        w <= 127,
    ensures
        r == pow2(w as nat),
        r > 0,
{
    let mut r: u128 = 1;
    let mut i: u32 = 0;
    proof {
        vstd::arithmetic::power2::lemma2_to64();
    }
    while i < w
        invariant
            i <= w <= 127,
            r == pow2(i as nat),
        decreases w - i,
    {
        proof {
            vstd::arithmetic::power2::lemma_pow2_unfold((i + 1) as nat);
            rounding::lemma_pow2_mono((i + 1) as nat, 127);
            lemma_pow2_128();
        }
        r = r * 2;
        i = i + 1;
    }
    proof {
        rounding::lemma_pow2_mono(0, w as nat);
    }
    r
}

/// The whole number nearest to `num / den`, ties to even.
fn round_quotient(num: u128, den: u128) -> (r: u128)
    requires
        den > 0,
        num < u128::MAX,
    ensures
        r == rounding::round_half_even(num as nat, den as nat),
{
    let low: u128 = num / den;
    let rest: u128 = num % den;
    assert(low <= num) by (nonlinear_arith)
        requires
            low == num / den,
            den > 0,
    ;
    if rest < den - rest || (rest == den - rest && low % 2 == 0) {
        low
    } else {
        low + 1
    }
}

/// The scale at which `n * 2^a / 2^1074` is rounded.
proof fn lemma_scale_of(n: nat, a: nat, len: nat, k: nat)
    requires
        len >= 1,
        pow2((len - 1) as nat) <= n < pow2(len),
        len + a <= 1127 + k,
        k > 0 ==> len + a == 1127 + k,
    ensures
        rounding::is_scale(n * pow2(a), pow2(1074), k),
{
    let p = pow2(a);
    rounding::lemma_pow2_mono(0, a);
    vstd::arithmetic::power2::lemma_pow2_adds(len, a);
    vstd::arithmetic::power2::lemma_pow2_adds(1074, 53 + k);
    rounding::lemma_pow2_mono(len + a, 1074 + (53 + k));
    assert(n * p < pow2(len) * p) by (nonlinear_arith)
        requires
            n < pow2(len),
            p > 0,
    ;
    if k > 0 {
        let l = (len - 1) as nat;
        vstd::arithmetic::power2::lemma_pow2_adds(l, a);
        vstd::arithmetic::power2::lemma_pow2_adds(1074, 52 + k);
        assert(l + a == 1074 + (52 + k));
        assert(pow2(l) * p <= n * p) by (nonlinear_arith)
            requires
                pow2(l) <= n,
        ;
    }
}

/// How `n * 2^a` rounds in steps of `2^(1074 + k)`.
proof fn lemma_round_shifted(n: nat, a: nat, k: nat)
    ensures
        1074 + k <= a ==> rounding::round_half_even(n * pow2(a), pow2(1074) * pow2(k)) == n * pow2(
            (a - (1074 + k)) as nat,
        ),
        1074 + k > a ==> rounding::round_half_even(n * pow2(a), pow2(1074) * pow2(k))
            == rounding::round_half_even(n, pow2((1074 + k - a) as nat)),
{
    let steps = pow2(1074 + k);
    vstd::arithmetic::power2::lemma_pow2_adds(1074, k);
    rounding::lemma_pow2_mono(0, 1074 + k);
    if 1074 + k <= a {
        let up = (a - (1074 + k)) as nat;
        vstd::arithmetic::power2::lemma_pow2_adds(up, 1074 + k);
        assert(up + (1074 + k) == a);
        assert(n * pow2(a) == (n * pow2(up)) * steps + 0) by (nonlinear_arith)
            requires
                pow2(a) == pow2(up) * steps,
        ;
        rounding::lemma_round_parts(n * pow2(a), steps, n * pow2(up), 0);
    } else {
        let down = (1074 + k - a) as nat;
        vstd::arithmetic::power2::lemma_pow2_adds(down, a);
        rounding::lemma_pow2_mono(0, a);
        rounding::lemma_pow2_mono(0, down);
        rounding::lemma_round_cancel(n, pow2(down), pow2(a));
        assert(pow2(a) * n == n * pow2(a)) by (nonlinear_arith);
        assert(pow2(a) * pow2(down) == pow2(down) * pow2(a)) by (nonlinear_arith);
    }
}

/// The number nearest to `n * 2^a / 2^1074` units.
fn round(n: u128, a: u32) -> (r: Binary64)
    requires
        n < pow2(120),
        a <= 10_000,
    ensures
        r.represents(rounding::nearest((n * pow2(a as nat)) as nat, pow2(1074))),
{
    let ghost num: nat = (n * pow2(a as nat)) as nat;
    let ghost den: nat = pow2(1074);
    proof {
        rounding::lemma_pow2_mono(0, 1074);
        vstd::arithmetic::power2::lemma2_to64();
        vstd::arithmetic::power2::lemma2_to64_rest();
        lemma_pow2_128();
        rounding::lemma_pow2_mono(120, 127);
    }
    let len: u32 = if n == 0 {
        1
    } else {
        bit_length(n)
    };
    let shift: u32 = if n > 0 && len + a > 53 + 1074 {
        len + a - (53 + 1074)
    } else {
        0
    };
    let ghost k: nat = shift as nat;
    let ghost steps: nat = den * pow2(k);
    proof {
        if n == 0 {
            assert(num == 0) by (nonlinear_arith)
                requires
                    num == n * pow2(a as nat),
                    n == 0,
            ;
            rounding::lemma_pow2_mono(0, 53 + 0);
            assert(den * pow2(53 + 0) > 0) by (nonlinear_arith)
                requires
                    den > 0,
                    pow2(53 + 0) > 0,
            ;
        } else {
            lemma_scale_of(n as nat, a as nat, len as nat, k);
        }
        rounding::lemma_nearest_at(num, den, k);
        lemma_round_shifted(n as nat, a as nat, k);
        vstd::arithmetic::power2::lemma_pow2_adds(53, k);
        vstd::arithmetic::power2::lemma_pow2_adds(52, k);
        rounding::lemma_pow2_mono(0, k);
        assert(steps > 0) by (nonlinear_arith)
            requires
                den > 0,
                pow2(k) > 0,
                steps == den * pow2(k),
        ;
        assert(num <= pow2(53) * steps) by (nonlinear_arith)
            requires
                num < den * pow2(53 + k),
                pow2(53 + k) == pow2(53) * pow2(k),
                steps == den * pow2(k),
        ;
        rounding::lemma_round_upper(num, steps, pow2(53));
        if k > 0 {
            assert(pow2(52) * steps <= num) by (nonlinear_arith)
                requires
                    den * pow2(52 + k) <= num,
                    pow2(52 + k) == pow2(52) * pow2(k),
                    steps == den * pow2(k),
            ;
            rounding::lemma_round_lower(num, steps, pow2(52));
        }
    }
    let mant: u128 = if n == 0 {
        proof {
            rounding::lemma_round_parts(num, steps, 0, 0);
        }
        0
    } else if 1074 + shift <= a {
        let up: u32 = a - (1074 + shift);
        proof {
            let p = pow2(up as nat);
            assert(p <= n * p) by (nonlinear_arith)
                requires
                    n >= 1,
            ;
            if up > 53 {
                vstd::arithmetic::power2::lemma_pow2_strictly_increases(53, up as nat);
            }
        }
        n * power_of_two(up)
    } else {
        let down: u32 = 1074 + shift - a;
        if down >= 122 {
            proof {
                rounding::lemma_pow2_mono(122, down as nat);
                vstd::arithmetic::power2::lemma_pow2_unfold(122);
                vstd::arithmetic::power2::lemma_pow2_unfold(121);
                rounding::lemma_round_parts(n as nat, pow2(down as nat), 0, n as nat);
            }
            0
        } else {
            round_quotient(n, power_of_two(down))
        }
    };
    assert(mant == rounding::round_half_even(num, steps));
    let carried: bool = mant == 0x20_0000_0000_0000;
    let m: u64 = if carried {
        0x10_0000_0000_0000
    } else {
        mant as u64
    };
    let s: u32 = if carried {
        shift + 1
    } else {
        shift
    };
    let ghost units: nat = rounding::nearest(num, den);
    proof {
        vstd::arithmetic::power2::lemma_pow2_unfold(k + 1);
        assert(units == m * pow2(s as nat)) by (nonlinear_arith)
            requires
                units == mant * pow2(k),
                carried ==> mant == 2 * m && pow2(s as nat) == 2 * pow2(k),
                !carried ==> mant == m && pow2(s as nat) == pow2(k),
        ;
        rounding::lemma_pow2_mono(0, s as nat);
        if s > 2045 {
            rounding::lemma_pow2_mono(52 + 2046, 52 + s as nat);
            vstd::arithmetic::power2::lemma_pow2_adds(52, s as nat);
            assert(pow2(52) * pow2(s as nat) <= m * pow2(s as nat)) by (nonlinear_arith)
                requires
                    pow2(52) <= m,
            ;
        } else {
            rounding::lemma_pow2_mono(53 + s as nat, 53 + 2045);
            vstd::arithmetic::power2::lemma_pow2_adds(53, s as nat);
            assert(m * pow2(s as nat) < pow2(53) * pow2(s as nat)) by (nonlinear_arith)
                requires
                    m < pow2(53),
                    pow2(s as nat) > 0,
            ;
        }
    }
    if s > 2045 {
        Binary64 { bits: 0x7ff0_0000_0000_0000 }
    } else {
        Binary64::from_parts(m, s)
    }
}

/// Every finite number lies below `2^1024`, that is `2^2098` units.
proof fn lemma_units_bound(x: Binary64)
    requires
        x.magnitude(),
    ensures
        x.units() < pow2(2098),
        x.represents(x.units()),
{
    let s = x.shift();
    vstd::arithmetic::power2::lemma2_to64_rest();
    rounding::lemma_pow2_mono(0, s);
    rounding::lemma_pow2_mono(53 + s, 2098);
    vstd::arithmetic::power2::lemma_pow2_adds(53, s);
    assert(x.units() < pow2(53) * pow2(s)) by (nonlinear_arith)
        requires
            x.units() == x.mantissa() * pow2(s),
            x.mantissa() < pow2(53),
            pow2(s) > 0,
    ;
}

/// A term far below the last place of a normal number does not change it.
proof fn lemma_absorb(mant: nat, shift: nat, small: nat)
    requires
        pow2(52) <= mant < pow2(53),
        shift >= 1,
        4 * small < pow2(shift),
    ensures
        rounding::nearest(mant * pow2(shift) + small, 1) == mant * pow2(shift),
        rounding::nearest((mant * pow2(shift) - small) as nat, 1) == mant * pow2(shift),
{
    let p = pow2(shift);
    let x = mant * p;
    vstd::arithmetic::power2::lemma2_to64_rest();
    vstd::arithmetic::power2::lemma_pow2_adds(53, shift);
    vstd::arithmetic::power2::lemma_pow2_adds(52, shift);
    vstd::arithmetic::power2::lemma_pow2_unfold(53);
    vstd::arithmetic::power2::lemma_pow2_unfold(shift);
    let h = pow2((shift - 1) as nat);
    assert(pow2(52) * p <= x && x + p <= pow2(53) * p) by (nonlinear_arith)
        requires
            pow2(52) <= mant,
            mant + 1 <= pow2(53),
            x == mant * p,
    ;
    rounding::lemma_nearest_at(x + small, 1, shift);
    rounding::lemma_round_parts(x + small, 1 * p, mant, small);
    if small == 0 {
    } else if mant > pow2(52) {
        assert(pow2(52) * p + p <= x) by (nonlinear_arith)
            requires
                pow2(52) + 1 <= mant,
                x == mant * p,
        ;
        assert((mant - 1) * p == x - p) by (nonlinear_arith)
            requires
                x == mant * p,
        ;
        rounding::lemma_nearest_at((x - small) as nat, 1, shift);
        rounding::lemma_round_parts(
            (x - small) as nat,
            1 * p,
            (mant - 1) as nat,
            (p - small) as nat,
        );
    } else {
        let k = (shift - 1) as nat;
        assert(53 + k == 52 + shift);
        if k > 0 {
            vstd::arithmetic::power2::lemma_pow2_adds(52, k);
            assert(pow2(52) * h + p <= x) by (nonlinear_arith)
                requires
                    x == pow2(52) * p,
                    p == 2 * h,
                    pow2(52) >= 2,
            ;
        }
        assert((pow2(53) - 1) * h == x - h) by (nonlinear_arith)
            requires
                x == pow2(52) * p,
                p == 2 * h,
                pow2(53) == 2 * pow2(52),
        ;
        rounding::lemma_nearest_at((x - small) as nat, 1, k);
        rounding::lemma_round_parts(
            (x - small) as nat,
            1 * h,
            (pow2(53) - 1) as nat,
            (h - small) as nat,
        );
        assert(pow2(53) * h == x) by (nonlinear_arith)
            requires
                x == pow2(52) * p,
                p == 2 * h,
                pow2(53) == 2 * pow2(52),
        ;
        assert((pow2(53) - 1) as nat % 2 == 1);
    }
}

/// Two magnitudes as multiples of the smaller one's step.
proof fn lemma_align(m: nat, hi: nat, lo: nat)
    requires
        lo <= hi,
    ensures
        m * pow2(hi) == (m * pow2((hi - lo) as nat)) * pow2(lo),
{
    let d = (hi - lo) as nat;
    vstd::arithmetic::power2::lemma_pow2_adds(d, lo);
    assert(d + lo == hi);
    assert(m * pow2(hi) == (m * pow2(d)) * pow2(lo)) by (nonlinear_arith)
        requires
            pow2(hi) == pow2(d) * pow2(lo),
    ;
}

/// `round` on a whole number of units.
proof fn lemma_round_whole(n: nat, k: nat)
    ensures
        rounding::nearest(n * pow2(k + 1074), pow2(1074)) == rounding::nearest(n * pow2(k), 1),
{
    vstd::arithmetic::power2::lemma_pow2_adds(k, 1074);
    rounding::lemma_pow2_mono(0, 1074);
    rounding::lemma_nearest_cancel(n * pow2(k), 1, pow2(1074));
    assert(pow2(1074) * (n * pow2(k)) == n * pow2(k + 1074)) by (nonlinear_arith)
        requires
            pow2(k + 1074) == pow2(k) * pow2(1074),
    ;
}

impl Binary64 {
    /// Of two magnitudes, the one with the larger shift is the larger.
    proof fn lemma_shift_order(self, other: Binary64)
        requires
            self.magnitude(),
            other.magnitude(),
            other.shift() < self.shift(),
        ensures
            other.units() < self.units(),
    {
        let (a, b) = (self.shift(), other.shift());
        vstd::arithmetic::power2::lemma2_to64_rest();
        vstd::arithmetic::power2::lemma_pow2_adds(52, a);
        vstd::arithmetic::power2::lemma_pow2_adds(53, b);
        rounding::lemma_pow2_mono(53 + b, 52 + a);
        rounding::lemma_pow2_mono(0, b);
        assert(other.units() < pow2(53) * pow2(b)) by (nonlinear_arith)
            requires
                other.units() == other.mantissa() * pow2(b),
                other.mantissa() < pow2(53),
                pow2(b) > 0,
        ;
        assert(pow2(52) * pow2(a) <= self.units()) by (nonlinear_arith)
            requires
                self.units() == self.mantissa() * pow2(a),
                pow2(52) <= self.mantissa(),
        ;
    }

    /// A positive finite number has a magnitude above zero.
    pub proof fn lemma_positive_units(self)
        requires
            self.finite(),
            self.positive(),
        ensures
            self.units() > 0,
    {
        rounding::lemma_pow2_mono(0, self.shift());
        assert(self.mantissa() > 0);
        assert(self.units() > 0) by (nonlinear_arith)
            requires
                self.units() == self.mantissa() * pow2(self.shift()),
                self.mantissa() > 0,
                pow2(self.shift()) > 0,
        ;
    }

    /// A number is its bits.
    pub proof fn lemma_same_bits(self, other: Binary64)
        requires
            self.bits() == other.bits(),
        ensures
            self == other,
    {
    }

    /// Numbers of the same magnitude have the same bits.
    pub proof fn lemma_unique(self, other: Binary64)
        requires
            self.magnitude(),
            other.magnitude(),
            self.units() == other.units(),
        ensures
            self.bits() == other.bits(),
    {
        if self.shift() < other.shift() {
            other.lemma_shift_order(self);
        } else if other.shift() < self.shift() {
            self.lemma_shift_order(other);
        } else {
            let p = pow2(self.shift());
            rounding::lemma_pow2_mono(0, self.shift());
            assert(self.mantissa() == other.mantissa()) by (nonlinear_arith)
                requires
                    self.mantissa() * p == other.mantissa() * p,
                    p > 0,
            ;
        }
    }
}

/// The product of two magnitudes, rounded.
pub(crate) fn product(x: Binary64, y: Binary64) -> (r: Binary64)
    requires
        x.magnitude(),
        y.magnitude(),
    ensures
        r.represents(rounding::nearest(x.units() * y.units(), pow2(1074))),
{
    let (mx, kx) = x.parts();
    let (my, ky) = y.parts();
    proof {
        let (a, b) = (kx as nat, ky as nat);
        vstd::arithmetic::power2::lemma_pow2_adds(a, b);
        vstd::arithmetic::power2::lemma2_to64_rest();
        vstd::arithmetic::power2::lemma_pow2_adds(53, 53);
        rounding::lemma_pow2_mono(106, 120);
        lemma_pow2_128();
        rounding::lemma_pow2_mono(120, 127);
        assert(mx * my < pow2(53) * pow2(53)) by (nonlinear_arith)
            requires
                mx < pow2(53),
                my < pow2(53),
        ;
        assert(x.units() * y.units() == (mx * my) * pow2(a + b)) by (nonlinear_arith)
            requires
                x.units() == mx * pow2(a),
                y.units() == my * pow2(b),
                pow2(a + b) == pow2(a) * pow2(b),
        ;
    }
    round(mx as u128 * my as u128, kx + ky)
}

/// The sum of two magnitudes, rounded.
pub(crate) fn sum(x: Binary64, y: Binary64) -> (r: Binary64)
    requires
        x.magnitude(),
        y.magnitude(),
    ensures
        r.represents(rounding::nearest(x.units() + y.units(), 1)),
{
    let (mx, kx) = x.parts();
    let (my, ky) = y.parts();
    let hi: Binary64 = if kx >= ky { x } else { y };
    let (mh, kh) = if kx >= ky { (mx, kx) } else { (my, ky) };
    let (ml, kl) = if kx >= ky { (my, ky) } else { (mx, kx) };
    if kh - kl > 64 {
        proof {
            lemma_negligible(ml as nat, kl as nat, kh as nat);
            vstd::arithmetic::power2::lemma2_to64_rest();
            lemma_absorb(mh as nat, kh as nat, ml as nat * pow2(kl as nat));
            lemma_units_bound(hi);
        }
        return hi;
    }
    let d: u32 = kh - kl;
    let step: u128 = power_of_two(d);
    proof {
        lemma_aligned_size(mh as nat, ml as nat, d as nat);
        lemma_align(mh as nat, kh as nat, kl as nat);
        lemma_round_whole((mh * step + ml) as nat, kl as nat);
        assert((mh * step + ml) * pow2(kl as nat) == (mh * step) * pow2(kl as nat) + ml * pow2(
            kl as nat,
        )) by (nonlinear_arith);
    }
    round(mh as u128 * step + ml as u128, kl + 1074)
}

/// Aligned significands fit in 120 bits.
proof fn lemma_aligned_size(hi: nat, lo: nat, d: nat)
    requires
        hi < 0x20_0000_0000_0000,
        lo < 0x20_0000_0000_0000,
        d <= 64,
    ensures
        hi * pow2(d) + lo < pow2(120),
        pow2(120) < u128::MAX,
{
    vstd::arithmetic::power2::lemma2_to64_rest();
    vstd::arithmetic::power2::lemma_pow2_adds(53, d);
    rounding::lemma_pow2_mono(53 + d, 117);
    rounding::lemma_pow2_mono(53, 117);
    vstd::arithmetic::power2::lemma_pow2_unfold(118);
    rounding::lemma_pow2_mono(118, 120);
    lemma_pow2_128();
    rounding::lemma_pow2_mono(120, 127);
    rounding::lemma_pow2_mono(0, d);
    assert(hi * pow2(d) < pow2(53) * pow2(d)) by (nonlinear_arith)
        requires
            hi < pow2(53),
            pow2(d) > 0,
    ;
}

/// A magnitude more than 64 places down is negligible.
proof fn lemma_negligible(m: nat, lo: nat, hi: nat)
    requires
        m < 0x20_0000_0000_0000,
        lo + 64 < hi,
    ensures
        4 * (m * pow2(lo)) < pow2(hi),
{
    vstd::arithmetic::power2::lemma2_to64_rest();
    vstd::arithmetic::power2::lemma_pow2_adds(53, lo);
    vstd::arithmetic::power2::lemma_pow2_unfold(54 + lo);
    vstd::arithmetic::power2::lemma_pow2_unfold(55 + lo);
    rounding::lemma_pow2_mono(55 + lo, hi);
    rounding::lemma_pow2_mono(0, lo);
    assert(m * pow2(lo) < pow2(53) * pow2(lo)) by (nonlinear_arith)
        requires
            m < pow2(53),
            pow2(lo) > 0,
    ;
}

/// The difference of two magnitudes, the larger one first, rounded.
pub(crate) fn difference(x: Binary64, y: Binary64) -> (r: Binary64)
    requires
        x.magnitude(),
        y.magnitude(),
        y.units() <= x.units(),
    ensures
        r.represents(rounding::nearest((x.units() - y.units()) as nat, 1)),
{
    let (mx, kx) = x.parts();
    let (my, ky) = y.parts();
    proof {
        if kx < ky {
            y.lemma_shift_order(x);
        }
    }
    if kx - ky > 64 {
        proof {
            lemma_negligible(my as nat, ky as nat, kx as nat);
            vstd::arithmetic::power2::lemma2_to64_rest();
            lemma_absorb(mx as nat, kx as nat, my as nat * pow2(ky as nat));
            lemma_units_bound(x);
        }
        return x;
    }
    let d: u32 = kx - ky;
    let step: u128 = power_of_two(d);
    proof {
        lemma_aligned_size(mx as nat, my as nat, d as nat);
        lemma_align(mx as nat, kx as nat, ky as nat);
        rounding::lemma_pow2_mono(0, ky as nat);
        assert(my <= mx * step) by (nonlinear_arith)
            requires
                my * pow2(ky as nat) <= (mx * step) * pow2(ky as nat),
                pow2(ky as nat) > 0,
        ;
        lemma_round_whole((mx * step - my) as nat, ky as nat);
        assert((mx * step - my) * pow2(ky as nat) == (mx * step) * pow2(ky as nat) - my * pow2(
            ky as nat,
        )) by (nonlinear_arith);
    }
    round(mx as u128 * step - my as u128, ky + 1074)
}

/// The number nearest to `nanos / 10^9` seconds.
fn nanos_as_secs(nanos: u32) -> (r: Binary64)
    requires
        nanos < 1_000_000_000,
    ensures
        r.represents(rounding::nearest(nanos as nat * pow2(1074), 1_000_000_000)),
        r.magnitude(),
{
    proof {
        lemma_pow2_128();
        vstd::arithmetic::power2::lemma_pow2_adds(96, 32);
        vstd::arithmetic::power2::lemma2_to64();
        vstd::arithmetic::power2::lemma2_to64_rest();
    }
    let wide: u128 = nanos as u128 * 0x1_0000_0000_0000_0000_0000_0000;
    let whole: u128 = wide / 1_000_000_000;
    let rest: u128 = wide % 1_000_000_000;
    let odd: u128 = if rest > 0 { 1 } else { 0 };
    let n: u128 = 2 * whole + odd;
    proof {
        let num = nanos as nat * pow2(1074);
        let den = 1_000_000_000nat;
        vstd::arithmetic::power2::lemma_pow2_adds(96, 978);
        assert(num == wide * pow2(978)) by (nonlinear_arith)
            requires
                num == nanos * pow2(1074),
                pow2(1074) == pow2(96) * pow2(978),
                wide == nanos * pow2(96),
        ;
        vstd::arithmetic::power2::lemma_pow2_adds(56, 64);
        assert(n < pow2(120));
        if nanos > 0 {
            rounding::lemma_nearest_sticky(whole as nat, rest as nat, den, 978);
            assert(whole * den + rest == wide);
        } else {
            assert(num == 0 && n * pow2(978) == 0) by (nonlinear_arith)
                requires
                    num == nanos * pow2(1074),
                    nanos == 0,
                    n == 0,
            ;
            rounding::lemma_nearest_zero(den);
            rounding::lemma_nearest_zero(2);
        }
        vstd::arithmetic::power2::lemma_pow2_unfold(978);
        assert(2 * (n * pow2(977)) == n * pow2(978)) by (nonlinear_arith)
            requires
                pow2(978) == 2 * pow2(977),
        ;
        rounding::lemma_nearest_cancel((n * pow2(977)) as nat, 1, 2);
        lemma_round_whole(n as nat, 977);
        assert(num <= den * pow2(1074)) by (nonlinear_arith)
            requires
                num == nanos * pow2(1074),
                nanos <= den,
        ;
        rounding::lemma_nearest_upper(num, den, 1074);
        vstd::arithmetic::power2::lemma_pow2_strictly_increases(1074, 2098);
    }
    round(n, 2051)
}

/// The number of seconds, in units of `2^-1074`, in `secs` seconds and `nanos`
/// nanoseconds: the two counts are converted on their own, then added.
pub open spec fn seconds(secs: nat, nanos: nat) -> nat {
    rounding::nearest(
        rounding::nearest(secs * pow2(1074), 1) + rounding::nearest(
            nanos * pow2(1074),
            1_000_000_000,
        ),
        1,
    )
}

/// A delay as a number of seconds.
pub(crate) fn as_secs(secs: u64, nanos: u32) -> (r: Binary64)
    requires
        nanos < 1_000_000_000,
    ensures
        r.magnitude(),
        r.units() == seconds(secs as nat, nanos as nat),
{
    proof {
        vstd::arithmetic::power2::lemma2_to64();
        rounding::lemma_pow2_mono(64, 120);
        lemma_round_whole(secs as nat, 1074);
        assert(1074 + 1074 == 2148nat);
        vstd::arithmetic::power2::lemma_pow2_adds(64, 1074);
        assert(secs as nat * pow2(1074) <= 1 * pow2(1138)) by (nonlinear_arith)
            requires
                pow2(1138) == pow2(64) * pow2(1074),
                secs <= pow2(64),
        ;
        rounding::lemma_nearest_upper(secs as nat * pow2(1074), 1, 1138);
        vstd::arithmetic::power2::lemma_pow2_strictly_increases(1138, 2098);
    }
    let whole: Binary64 = round(secs as u128, 2148);
    let part: Binary64 = nanos_as_secs(nanos);
    proof {
        let num = nanos as nat * pow2(1074);
        assert(num <= 1_000_000_000 * pow2(1074)) by (nonlinear_arith)
            requires
                num == nanos * pow2(1074),
                nanos <= 1_000_000_000,
        ;
        rounding::lemma_nearest_upper(num, 1_000_000_000, 1074);
        rounding::lemma_pow2_mono(1074, 1138);
        vstd::arithmetic::power2::lemma_pow2_unfold(1139);
        rounding::lemma_nearest_upper(whole.units() + part.units(), 1, 1139);
        vstd::arithmetic::power2::lemma_pow2_strictly_increases(1139, 2098);
    }
    sum(whole, part)
}

/// A number of seconds as a count of nanoseconds, the longest delay where it
/// does not fit.
pub(crate) fn to_nanos(x: Binary64) -> (r: u128)
    requires
        !x.negative(),
        !x.nan(),
    ensures
        forall|units: nat| #[trigger] x.represents(units) ==> r == util::as_nanos(units),
        r <= time::max_nanos(),
{
    let longest: u128 = u64::MAX as u128 * 1_000_000_000 + 999_999_999;
    if x.is_infinite() {
        proof {
            rounding::lemma_pow2_mono(1138, 2098);
        }
        return longest;
    }
    proof {
        assert forall|units: nat| #[trigger] x.represents(units) implies units == x.units() by {}
    }
    let (m, k) = x.parts();
    let ghost units = x.units();
    proof {
        vstd::arithmetic::power2::lemma2_to64();
        vstd::arithmetic::power2::lemma2_to64_rest();
        lemma_pow2_128();
    }
    if k >= 1074 {
        let up: u32 = k - 1074;
        if up >= 12 {
            proof {
                vstd::arithmetic::power2::lemma_pow2_adds(52, k as nat);
                rounding::lemma_pow2_mono(1138, 52 + k as nat);
                assert(units >= pow2(52) * pow2(k as nat)) by (nonlinear_arith)
                    requires
                        units == m * pow2(k as nat),
                        m >= pow2(52),
                ;
            }
            return longest;
        }
        let step: u128 = power_of_two(up);
        proof {
            rounding::lemma_pow2_mono(up as nat, 11);
            assert(m * step < 0x20_0000_0000_0000 * 2048) by (nonlinear_arith)
                requires
                    m < 0x20_0000_0000_0000,
                    step <= 2048,
            ;
            lemma_align(m as nat, k as nat, 1074);
            let secs = (m * step) as nat;
            vstd::arithmetic::power2::lemma_pow2_adds(64, 1074);
            rounding::lemma_pow2_mono(0, 1074);
            assert(secs < pow2(64) ==> units < pow2(1138)) by (nonlinear_arith)
                requires
                    units == secs * pow2(1074),
                    pow2(1138) == pow2(64) * pow2(1074),
                    pow2(1074) > 0,
            ;
            assert(units * 1_000_000_000 == (secs * 1_000_000_000) * pow2(1074) + 0)
                by (nonlinear_arith)
                requires
                    units == secs * pow2(1074),
            ;
            rounding::lemma_round_parts(
                units * 1_000_000_000,
                pow2(1074),
                secs * 1_000_000_000,
                0,
            );
        }
        m as u128 * step * 1_000_000_000
    } else {
        let down: u32 = 1074 - k;
        let n: u128 = m as u128 * 1_000_000_000;
        proof {
            let p = pow2(k as nat);
            let q = pow2(down as nat);
            vstd::arithmetic::power2::lemma_pow2_adds(k as nat, down as nat);
            rounding::lemma_pow2_mono(0, k as nat);
            rounding::lemma_pow2_mono(0, down as nat);
            rounding::lemma_round_cancel(n as nat, q, p);
            assert(p * n == units * 1_000_000_000) by (nonlinear_arith)
                requires
                    units == m * p,
                    n == m * 1_000_000_000,
            ;
            // The value is below 2^53 seconds.
            vstd::arithmetic::power2::lemma_pow2_adds(53, k as nat);
            rounding::lemma_pow2_mono(53 + k as nat, 1138);
            assert(units < pow2(53) * p) by (nonlinear_arith)
                requires
                    units == m * p,
                    m < pow2(53),
                    p > 0,
            ;
            assert(n <= n * q) by (nonlinear_arith)
                requires
                    q >= 1,
            ;
            rounding::lemma_round_upper(n as nat, q, n as nat);
        }
        if down >= 100 {
            proof {
                rounding::lemma_pow2_mono(100, down as nat);
                vstd::arithmetic::power2::lemma_pow2_adds(36, 64);
                rounding::lemma_round_parts(n as nat, pow2(down as nat), 0, n as nat);
            }
            0
        } else {
            round_quotient(n, power_of_two(down))
        }
    }
}

impl Binary64 {
    /// The number without its sign.
    pub(crate) fn abs(self) -> (r: Self)
        ensures
            !r.negative(),
            r.biased() == self.biased(),
            r.fraction() == self.fraction(),
    {
        if self.bits >= 0x8000_0000_0000_0000 {
            Binary64 { bits: self.bits - 0x8000_0000_0000_0000 }
        } else {
            self
        }
    }

    /// One.
    pub(crate) fn one() -> (r: Self)
        ensures
            r.bits() == 0x3ff0_0000_0000_0000,
            r.magnitude(),
            r.units() == pow2(1074),
    {
        proof {
            vstd::arithmetic::power2::lemma2_to64_rest();
            vstd::arithmetic::power2::lemma_pow2_adds(52, 1022);
        }
        Binary64 { bits: 0x3ff0_0000_0000_0000 }
    }

    /// One half.
    pub(crate) fn half() -> (r: Self)
        ensures
            r.bits() == 0x3fe0_0000_0000_0000,
            r.magnitude(),
            r.units() == pow2(1073),
    {
        proof {
            vstd::arithmetic::power2::lemma2_to64_rest();
            vstd::arithmetic::power2::lemma_pow2_adds(52, 1021);
        }
        Binary64 { bits: 0x3fe0_0000_0000_0000 }
    }

    /// Whether a magnitude is below one.
    pub(crate) fn below_one(self) -> (r: bool)
        requires
            self.magnitude(),
        ensures
            r == (self.units() < pow2(1074)),
    {
        let (m, k) = self.parts();
        proof {
            vstd::arithmetic::power2::lemma2_to64_rest();
            let p = pow2(k as nat);
            rounding::lemma_pow2_mono(0, k as nat);
            vstd::arithmetic::power2::lemma_pow2_adds(52, k as nat);
            vstd::arithmetic::power2::lemma_pow2_adds(53, k as nat);
            if k >= 1022 {
                rounding::lemma_pow2_mono(1074, 52 + k as nat);
                assert(pow2(52) * p <= m * p) by (nonlinear_arith)
                    requires
                        pow2(52) <= m,
                ;
            } else {
                rounding::lemma_pow2_mono(53 + k as nat, 1074);
                assert(m * p < pow2(53) * p) by (nonlinear_arith)
                    requires
                        m < pow2(53),
                        p > 0,
                ;
            }
        }
        k < 1022
    }

    /// Twice a magnitude of at most one.
    pub(crate) fn doubled(self) -> (r: Self)
        requires
            self.magnitude(),
            self.units() <= pow2(1074),
        ensures
            r.magnitude(),
            r.units() == 2 * self.units(),
    {
        let (m, k) = self.parts();
        if k == 0 && m < 0x10_0000_0000_0000 {
            let r = Binary64::from_parts(2 * m, 0);
            assert(r.units() == 2 * self.units()) by (nonlinear_arith)
                requires
                    r.units() == (2 * m) * pow2(0),
                    self.units() == m * pow2(0),
            ;
            r
        } else {
            proof {
                vstd::arithmetic::power2::lemma2_to64_rest();
                let p = pow2(k as nat);
                vstd::arithmetic::power2::lemma_pow2_unfold(k as nat + 1);
                vstd::arithmetic::power2::lemma_pow2_adds(52, k as nat);
                if k >= 1023 {
                    vstd::arithmetic::power2::lemma_pow2_strictly_increases(1074, 52 + k as nat);
                    assert(pow2(52) * p <= m * p) by (nonlinear_arith)
                        requires
                            pow2(52) <= m,
                    ;
                }
                assert(m * (2 * p) == 2 * (m * p)) by (nonlinear_arith);
            }
            Binary64::from_parts(m, k + 1)
        }
    }

    /// `n / 2^53`, for a whole number `n` of 53 bits.
    pub(crate) fn from_53_bits(n: u64) -> (r: Self)
        requires
            n < 0x20_0000_0000_0000,
        ensures
            r.magnitude(),
            r.units() == n * pow2(1021),
            r.units() < pow2(1074),
    {
        proof {
            vstd::arithmetic::power2::lemma2_to64_rest();
            lemma_pow2_128();
            rounding::lemma_pow2_mono(53, 120);
            lemma_round_whole(n as nat, 1021);
            rounding::lemma_nearest_exact(n as nat, 1021);
            vstd::arithmetic::power2::lemma_pow2_adds(53, 1021);
            rounding::lemma_pow2_mono(0, 1021);
            assert(n * pow2(1021) < pow2(53) * pow2(1021)) by (nonlinear_arith)
                requires
                    n < pow2(53),
                    pow2(1021) > 0,
            ;
            vstd::arithmetic::power2::lemma_pow2_strictly_increases(1074, 2098);
        }
        round(n as u128, 2095)
    }
}

/// `n` nanoseconds times a factor of at most one: the whole nanoseconds, and
/// whether nothing is left over.
pub(crate) fn portion(n: u128, factor: Binary64) -> (r: (u128, bool))
    requires
        n <= time::max_nanos(),
        factor.magnitude(),
        factor.units() <= pow2(1074),
    ensures
        r.0 == (n as nat * factor.units()) / pow2(1074),
        r.1 == ((n as nat * factor.units()) % pow2(1074) == 0),
{
    let (m, k) = factor.parts();
    proof {
        vstd::arithmetic::power2::lemma2_to64();
        vstd::arithmetic::power2::lemma2_to64_rest();
        if k >= 1023 {
            vstd::arithmetic::power2::lemma_pow2_adds(52, k as nat);
            vstd::arithmetic::power2::lemma_pow2_strictly_increases(1074, 52 + k as nat);
            assert(pow2(52) * pow2(k as nat) <= m * pow2(k as nat)) by (nonlinear_arith)
                requires
                    pow2(52) <= m,
            ;
        }
    }
    // The product has up to 147 bits, so it is taken in two halves.
    let upper: u128 = n / 0x8000_0000_0000;
    let lower: u128 = n % 0x8000_0000_0000;
    assert(upper * m < 0x8000_0000_0000 * 0x20_0000_0000_0000 && lower * m < 0x8000_0000_0000
        * 0x20_0000_0000_0000) by (nonlinear_arith)
        requires
            upper < 0x8000_0000_0000,
            lower < 0x8000_0000_0000,
            m < 0x20_0000_0000_0000,
    ;
    let low_part: u128 = lower * m as u128;
    let high: u128 = upper * m as u128 + low_part / 0x8000_0000_0000;
    let left: u128 = low_part % 0x8000_0000_0000;
    let down: u32 = 1074 - k - 47;
    let ghost step: nat = pow2(down as nat);
    let whole: u128;
    let rest: u128;
    if down >= 110 {
        whole = 0;
        rest = high;
        proof {
            rounding::lemma_pow2_mono(110, down as nat);
            vstd::arithmetic::power2::lemma_pow2_adds(46, 64);
        }
    } else {
        let p: u128 = power_of_two(down);
        whole = high / p;
        rest = high % p;
    }
    proof {
        rounding::lemma_pow2_mono(0, down as nat);
        vstd::arithmetic::div_mod::lemma_fundamental_div_mod(high as int, step as int);
        assert(high == whole * step + rest && rest < step) by (nonlinear_arith)
            requires
                down >= 110 ==> whole == 0 && rest == high && rest < step,
                down < 110 ==> high == step * whole + rest && rest < step,
        ;
        assert(n * m == high * 0x8000_0000_0000 + left) by (nonlinear_arith)
            requires
                n == upper * 0x8000_0000_0000 + lower,
                lower * m == low_part,
                low_part == (low_part / 0x8000_0000_0000) * 0x8000_0000_0000 + left,
                high == upper * m + low_part / 0x8000_0000_0000,
        ;
        let p = pow2(k as nat);
        let one = pow2(1074);
        rounding::lemma_pow2_mono(0, k as nat);
        vstd::arithmetic::power2::lemma_pow2_adds(47, down as nat);
        vstd::arithmetic::power2::lemma_pow2_adds(47 + down as nat, k as nat);
        let num = n as nat * factor.units();
        let over = (rest * 0x8000_0000_0000 + left) * p;
        assert(num == whole * one + over) by (nonlinear_arith)
            requires
                num == n * (m * p),
                n * m == high * 0x8000_0000_0000 + left,
                high == whole * step + rest,
                one == (0x8000_0000_0000 * step) * p,
                over == (rest * 0x8000_0000_0000 + left) * p,
        ;
        assert(over < one) by (nonlinear_arith)
            requires
                rest + 1 <= step,
                left < 0x8000_0000_0000,
                one == (0x8000_0000_0000 * step) * p,
                over == (rest * 0x8000_0000_0000 + left) * p,
                p > 0,
        ;
        rounding::lemma_round_parts(num, one, whole as nat, over as nat);
        assert(over == 0 <==> rest == 0 && left == 0) by (nonlinear_arith)
            requires
                over == (rest * 0x8000_0000_0000 + left) * p,
                p > 0,
        ;
    }
    (whole, rest == 0 && left == 0)
}

/// One is the only number of its magnitude.
pub proof fn lemma_is_one(x: Binary64)
    requires
        x.magnitude(),
    ensures
        x.units() == pow2(1074) <==> x.bits() == 0x3ff0_0000_0000_0000,
{
    vstd::arithmetic::power2::lemma2_to64_rest();
    vstd::arithmetic::power2::lemma_pow2_adds(52, 1022);
    let one = Binary64 { bits: 0x3ff0_0000_0000_0000 };
    if x.units() == pow2(1074) {
        x.lemma_unique(one);
    }
}

/// One half is the only number of its magnitude.
pub proof fn lemma_is_half(x: Binary64)
    requires
        x.magnitude(),
    ensures
        x.units() == pow2(1073) <==> x.bits() == 0x3fe0_0000_0000_0000,
{
    vstd::arithmetic::power2::lemma2_to64_rest();
    vstd::arithmetic::power2::lemma_pow2_adds(52, 1021);
    let half = Binary64 { bits: 0x3fe0_0000_0000_0000 };
    if x.units() == pow2(1073) {
        x.lemma_unique(half);
    }
}

} // verus!
