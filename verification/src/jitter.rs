//! Jitter: randomness injected into backoff delays.
//!
//! If a thousand peers all fail at the same instant and all back off by exactly
//! the same amount, they will all retry at the same instant too. Jitter spreads
//! them out.
//!
//! The randomness is injected, not pulled from a global generator. Inject
//! [`NoJitter`] for fully deterministic behaviour, a seeded [`SplitMix64`] for
//! behaviour that is reproducible yet spread out, or a generator of your own.
use core::time::Duration;
use vstd::arithmetic::power2::pow2;
use vstd::prelude::*;

use crate::criteria;
use crate::float;
use crate::float::Binary64;
use crate::rounding;
use crate::time;
use crate::util;

verus! {

/// Whether a number lies in the half-open range from zero to one.
pub open spec fn in_unit_range(unit: Binary64) -> bool {
    &&& unit.finite()
    &&& unit.units() < pow2(1074)
    &&& unit.negative() ==> unit.units() == 0
}

/// Whether a delay is left as it is, without a draw: the factor is not above
/// zero, or the delay is zero.
pub open spec fn unspread(base: Duration, factor: Binary64) -> bool {
    (!factor.nan() && !factor.positive()) || time::nanos(base) == 0
}

/// A spread factor capped at one, in units of `2^-1074`.
pub open spec fn capped(factor: Binary64) -> nat {
    if factor.finite() && factor.units() < pow2(1074) {
        factor.units()
    } else {
        pow2(1074)
    }
}

/// The scale that a draw stands for: `(1 - factor) + unit * (2 * factor)`,
/// each step rounded.
pub open spec fn jitter_scale(factor: nat, unit: nat) -> nat {
    rounding::nearest(
        rounding::nearest((pow2(1074) - factor) as nat, 1) + rounding::nearest(
            unit * (2 * factor),
            pow2(1074),
        ),
        1,
    )
}

/// The fewest nanoseconds that are at least `n * (1 - factor)`.
pub open spec fn lowest(n: nat, factor: nat) -> nat {
    (n - (n * factor) / pow2(1074)) as nat
}

/// The most nanoseconds that are below `n * (1 + factor)`.
pub open spec fn highest(n: nat, factor: nat) -> nat {
    n + ((n * factor - 1) as nat) / pow2(1074)
}

/// The number nearest to `x` from `low` to `high`.
pub open spec fn clamped(x: nat, low: nat, high: nat) -> nat {
    if x < low {
        low
    } else if x > high {
        high
    } else {
        x
    }
}

/// Whether `r` is the delay `base`, spread by `factor`, for the draw `unit`. The
/// midpoint draw leaves the delay as it is.
pub open spec fn jittered_to(base: Duration, factor: Binary64, unit: Binary64, r: Duration) -> bool {
    let n = time::nanos(base);
    let f = capped(factor);
    let scale = jitter_scale(f, unit.units());
    if unspread(base, factor) || unit.units() == pow2(1073) {
        r == base
    } else {
        time::nanos(r) == clamped(util::multiplied(n, scale), lowest(n, f), highest(n, f))
    }
}

/// Whether `apply` may take the source from `pre` to `post` and return `r`.
pub open spec fn applies<J: Jitter + ?Sized>(
    pre: &J,
    post: &J,
    base: Duration,
    factor: Binary64,
    r: Duration,
) -> bool {
    if unspread(base, factor) {
        post == pre && r == base
    } else {
        exists|unit: Binary64| #[trigger]
            pre.draws(post, unit) && in_unit_range(unit) && jittered_to(base, factor, unit, r)
    }
}

/// A source of uniform randomness used to perturb backoff delays.
///
/// The only required method is `next_unit_f64`. The provided method `apply`
/// turns what it yields into a symmetric jitter around a base delay.
pub trait Jitter {
    /// Whether a draw may yield `unit` and leave the source as `post`. A source
    /// that does not say may yield anything in range.
    open spec fn draws(&self, post: &Self, unit: Binary64) -> bool {
        true
    }

    /// The next value in the half-open range from zero to one.
    fn next_unit_f64(&mut self) -> (unit: Binary64)
        ensures
            Self::draws(&*old(self), &*final(self), unit),
            in_unit_range(unit),
    ;

    /// Apply symmetric jitter of `factor` around `base`.
    ///
    /// A `factor` that is not above zero, or a zero `base`, leaves the delay
    /// unchanged and draws nothing. Otherwise `factor` is capped at one, and the
    /// result lies from `base * (1 - factor)`, inclusive, to
    /// `base * (1 + factor)`, exclusive. The midpoint draw gives `base` itself.
    fn apply(&mut self, base: Duration, factor: Binary64) -> (r: Duration)
        ensures
            unspread(base, factor) ==> &*final(self) == &*old(self) && r == base,
            !unspread(base, factor) ==> exists|unit: Binary64| #[trigger]
                Self::draws(&*old(self), &*final(self), unit) && in_unit_range(unit) && jittered_to(
                    base,
                    factor,
                    unit,
                    r,
                ),
    {
        if is_unspread(base, factor) {
            return base;
        }
        let unit: Binary64 = self.next_unit_f64();
        jittered(base, factor, unit)
    }
}

/// Whether sources that are alike draw the same and stay alike: what they draw
/// depends only on what makes them alike.
pub open spec fn draw_alike<J: Jitter>(alike: spec_fn(J, J) -> bool) -> bool {
    forall|a: J, a_post: J, x: Binary64, b: J, b_post: J, y: Binary64|
        alike(a, b) && #[trigger] J::draws(&a, &a_post, x) && in_unit_range(x)
            && #[trigger] J::draws(&b, &b_post, y) && in_unit_range(y) ==> alike(a_post, b_post)
            && x.units() == y.units()
}

/// The two terms of a scale, and the scale itself, stay far below overflow.
proof fn lemma_scale_terms(factor: nat, unit: nat)
    requires
        factor <= pow2(1074),
        unit < pow2(1074),
    ensures
        rounding::nearest((pow2(1074) - factor) as nat, 1) <= pow2(1074),
        rounding::nearest(unit * (2 * factor), pow2(1074)) <= pow2(1075),
        jitter_scale(factor, unit) <= pow2(1076),
{
    let one = pow2(1074);
    rounding::lemma_pow2_mono(0, 1074);
    vstd::arithmetic::power2::lemma_pow2_unfold(1075);
    vstd::arithmetic::power2::lemma_pow2_unfold(1076);
    rounding::lemma_nearest_upper((one - factor) as nat, 1, 1074);
    assert(unit * (2 * factor) <= one * pow2(1075)) by (nonlinear_arith)
        requires
            unit <= one,
            factor <= one,
            pow2(1075) == 2 * one,
    ;
    rounding::lemma_nearest_upper(unit * (2 * factor), one, 1075);
    rounding::lemma_nearest_upper(
        rounding::nearest((one - factor) as nat, 1) + rounding::nearest(unit * (2 * factor), one),
        1,
        1076,
    );
}

/// The most nanoseconds below `n * (1 + factor)`, from the portion `n * factor`.
proof fn lemma_reach(n: nat, factor: nat)
    requires
        n > 0,
        0 < factor <= pow2(1074),
    ensures
        n * factor > 0,
        (n * factor) / pow2(1074) <= n,
        (n * factor) % pow2(1074) == 0 ==> highest(n, factor) == n + (n * factor) / pow2(1074) - 1,
        (n * factor) % pow2(1074) != 0 ==> highest(n, factor) == n + (n * factor) / pow2(1074),
{
    let one = pow2(1074);
    let x = n * factor;
    rounding::lemma_pow2_mono(0, 1074);
    assert(x > 0 && x <= n * one) by (nonlinear_arith)
        requires
            x == n * factor,
            n > 0,
            0 < factor <= one,
    ;
    let q = x / one;
    let r = x % one;
    vstd::arithmetic::div_mod::lemma_fundamental_div_mod(x as int, one as int);
    assert(x == q * one + r) by (nonlinear_arith)
        requires
            x == one * q + r,
    ;
    assert(q <= n) by (nonlinear_arith)
        requires
            q * one + r <= n * one,
            one > 0,
    ;
    if r == 0 {
        assert(q >= 1) by (nonlinear_arith)
            requires
                x == q * one,
                x > 0,
        ;
        assert(x - 1 == (q - 1) * one + (one - 1)) by (nonlinear_arith)
            requires
                x == q * one,
        ;
        rounding::lemma_round_parts((x - 1) as nat, one, (q - 1) as nat, (one - 1) as nat);
    } else {
        rounding::lemma_round_parts((x - 1) as nat, one, q, (r - 1) as nat);
    }
}

/// Whether a delay is left as it is.
fn is_unspread(base: Duration, factor: Binary64) -> (r: bool)
    ensures
        r == unspread(base, factor),
{
    (!factor.is_nan() && !factor.is_positive()) || time::total_nanos(base) == 0
}

/// A delay spread by a factor, for a given draw.
///
/// The delay is multiplied by the scale that the draw stands for. A product
/// that rounding has put outside the half-open range is moved to the nearest
/// nanosecond inside. The midpoint draw, whose scale is one, leaves the delay as
/// it is.
pub fn jittered(base: Duration, factor: Binary64, unit: Binary64) -> (r: Duration)
    requires
        in_unit_range(unit),
    ensures
        jittered_to(base, factor, unit, r),
{
    if is_unspread(base, factor) {
        return base;
    }
    let draw: Binary64 = unit.abs();
    proof {
        float::lemma_is_half(draw);
    }
    if draw.to_bits() == 0x3fe0_0000_0000_0000 {
        return base;
    }
    let n: u128 = time::total_nanos(base);
    let ghost f: nat = capped(factor);
    let cap: Binary64 = if factor.is_positive() && !factor.is_infinite() && factor.below_one() {
        factor
    } else {
        Binary64::one()
    };
    proof {
        if factor.positive() && factor.finite() {
            factor.lemma_positive_units();
        }
        rounding::lemma_pow2_mono(0, 1074);
        assert(cap.magnitude() && cap.units() == f && 0 < f <= pow2(1074));
    }
    let twice: Binary64 = cap.doubled();
    let low_end: Binary64 = float::difference(Binary64::one(), cap);
    let step: Binary64 = float::product(draw, twice);
    proof {
        lemma_scale_terms(f, draw.units());
        rounding::lemma_pow2_mono(1074, 1076);
        rounding::lemma_pow2_mono(1075, 1076);
        vstd::arithmetic::power2::lemma_pow2_strictly_increases(1076, 2098);
    }
    let scale: Binary64 = float::sum(low_end, step);
    let (reach, exact) = float::portion(n, cap);
    proof {
        lemma_reach(n as nat, f);
    }
    let low: u128 = n - reach;
    let high: u128 = if exact { n + reach - 1 } else { n + reach };
    let x: u128 = util::multiply(base, scale);
    let y: u128 = if x < low { low } else if x > high { high } else { x };
    time::from_total_nanos(y)
}

impl<J: Jitter + ?Sized> Jitter for &mut J {
    open spec fn draws(&self, post: &Self, unit: Binary64) -> bool {
        (**self).draws(&**post, unit)
    }

    fn next_unit_f64(&mut self) -> (unit: Binary64)
        ensures
            J::draws(&**old(self), &**final(self), unit),
    {
        (**self).next_unit_f64()
    }
}

/// A [`Jitter`] that adds no randomness at all.
///
/// [`apply`](Jitter::apply) always returns the base delay unchanged, so a
/// policy using `NoJitter` is fully deterministic.
#[derive(Debug, Clone, Copy)]
pub struct NoJitter;

impl Default for NoJitter {
    fn default() -> (r: Self)
        ensures
            r == NoJitter,
    {
        NoJitter
    }
}

impl Jitter for NoJitter {
    open spec fn draws(&self, post: &Self, unit: Binary64) -> bool {
        unit.bits() == 0x3fe0_0000_0000_0000
    }

    /// Returns the midpoint, so any symmetric jitter collapses to the base
    /// delay.
    fn next_unit_f64(&mut self) -> (unit: Binary64)
        ensures
            unit.units() == pow2(1073),
    {
        proof {
            vstd::arithmetic::power2::lemma_pow2_strictly_increases(1073, 1074);
        }
        Binary64::half()
    }

    fn apply(&mut self, base: Duration, factor: Binary64) -> (r: Duration)
        ensures
            r == base,
    {
        let unit: Binary64 = self.next_unit_f64();
        proof {
            assert(Self::draws(&*old(self), &*self, unit));
        }
        base
    }
}

/// A tiny, fast, deterministic generator (SplitMix64).
///
/// It is not cryptographically secure, but it has good statistical spread and
/// is perfectly reproducible from a seed.
#[derive(Debug, Clone, Copy)]
pub struct SplitMix64 {
    state: u64,
}

/// The state that follows a state.
pub open spec fn advanced(state: u64) -> u64 {
    state.wrapping_add(0x9E37_79B9_7F4A_7C15)
}

/// The value that a state gives out.
pub open spec fn mixed(state: u64) -> u64 {
    let a = (state ^ (state >> 30)).wrapping_mul(0xBF58_476D_1CE4_E5B9);
    let b = (a ^ (a >> 27)).wrapping_mul(0x94D0_49BB_1331_11EB);
    b ^ (b >> 31)
}

impl SplitMix64 {
    /// The state that the generator is in.
    pub closed spec fn state(&self) -> u64 {
        self.state
    }

    /// Create a new generator from a 64-bit seed.
    #[must_use]
    pub fn new(seed: u64) -> (r: Self)
        ensures
            r.state() == seed,
    {
        Self { state: seed }
    }

    /// Advance the generator and return the next raw 64-bit value.
    pub fn next_u64(&mut self) -> (r: u64)
        ensures
            final(self).state() == advanced(old(self).state()),
            final(self).state() == (old(self).state() + 0x9E37_79B9_7F4A_7C15)
                % 0x1_0000_0000_0000_0000,
            r == mixed(final(self).state()),
            criteria::state_behind(r) == final(self).state(),
    {
        proof {
            criteria::law_values_give_back_their_state(advanced(self.state()));
        }
        self.state = self.state.wrapping_add(0x9E37_79B9_7F4A_7C15);
        let mut z: u64 = self.state;
        z = (z ^ (z >> 30)).wrapping_mul(0xBF58_476D_1CE4_E5B9);
        z = (z ^ (z >> 27)).wrapping_mul(0x94D0_49BB_1331_11EB);
        z ^ (z >> 31)
    }
}

impl Default for SplitMix64 {
    fn default() -> (r: Self)
        ensures
            r.state() == 0x2545_F491_4F6C_DD1D,
    {
        // An arbitrary non-zero default seed.
        Self::new(0x2545_F491_4F6C_DD1D)
    }
}

impl Jitter for SplitMix64 {
    /// The top 53 bits of the next raw value, over `2^53`.
    open spec fn draws(&self, post: &Self, unit: Binary64) -> bool {
        &&& post.state() == advanced(self.state())
        &&& unit.magnitude()
        &&& unit.units() == (mixed(post.state()) / 2048) as nat * pow2(1021)
    }

    fn next_unit_f64(&mut self) -> (unit: Binary64) {
        Binary64::from_53_bits(self.next_u64() / 2048)
    }
}

} // verus!
