use core::time::Duration;

use tardigrade::util::saturating_mul_f64;
use tardigrade::{Binary64, SplitMix64};

fn number(x: f64) -> Binary64 {
    Binary64::from_bits(x.to_bits())
}

#[test]
fn handles_pathological_factors() {
    let base = Duration::from_secs(1);
    assert_eq!(saturating_mul_f64(base, number(f64::NAN)), Duration::ZERO);
    assert_eq!(saturating_mul_f64(base, number(f64::INFINITY)), Duration::MAX);
    assert_eq!(saturating_mul_f64(base, number(-1.0)), Duration::ZERO);
    assert_eq!(saturating_mul_f64(base, number(0.0)), Duration::ZERO);
    assert_eq!(saturating_mul_f64(Duration::ZERO, number(10.0)), Duration::ZERO);
}

#[test]
fn saturates_at_max_instead_of_panicking() {
    // Repeatedly growing the max duration must never panic.
    let grown = saturating_mul_f64(Duration::MAX, number(2.0));
    assert_eq!(grown, Duration::MAX);
}

#[test]
fn ordinary_multiplication_is_exact_enough() {
    let d = saturating_mul_f64(Duration::from_millis(100), number(1.5));
    assert_eq!(d, Duration::from_millis(150));
}

#[test]
fn negative_zero_and_negative_infinity_collapse_to_zero() {
    let base = Duration::from_secs(1);
    assert_eq!(saturating_mul_f64(base, number(-0.0)), Duration::ZERO);
    assert_eq!(saturating_mul_f64(base, number(f64::NEG_INFINITY)), Duration::ZERO);
    assert_eq!(saturating_mul_f64(Duration::ZERO, number(f64::INFINITY)), Duration::ZERO);
}

/// The same product in hardware floating point.
fn hardware(base: Duration, factor: f64) -> Duration {
    if factor.is_nan() || factor <= 0.0 || base.is_zero() {
        return Duration::ZERO;
    }
    let secs = base.as_secs_f64() * factor;
    if secs.is_infinite() {
        return Duration::MAX;
    }
    Duration::try_from_secs_f64(secs).unwrap_or(Duration::MAX)
}

#[test]
fn agrees_with_hardware_floating_point() {
    let mut rng = SplitMix64::new(2024);
    for i in 0..200_000u64 {
        let secs = rng.next_u64() >> (rng.next_u64() % 64);
        let nanos = (rng.next_u64() % 1_000_000_000) as u32 >> (rng.next_u64() % 30);
        let base = Duration::new(if i % 3 == 0 { 0 } else { secs }, nanos);
        let factor = match i % 4 {
            0 => f64::from_bits(rng.next_u64()),
            1 => (rng.next_u64() % 1000) as f64 / 8.0,
            2 => (rng.next_u64() >> 11) as f64 / 9007199254740992.0 * 4.0,
            _ => f64::from_bits((1023 << 52) + (rng.next_u64() % 128 << 52) + (rng.next_u64() >> 12)),
        };
        assert_eq!(
            saturating_mul_f64(base, number(factor)),
            hardware(base, factor),
            "{base:?} * {factor:e}"
        );
    }
}

#[test]
fn agrees_with_hardware_floating_point_at_the_edges() {
    let bases = [
        Duration::from_nanos(1),
        Duration::from_nanos(2),
        Duration::from_nanos(999_999_999),
        Duration::from_secs(1),
        Duration::new(1, 1),
        Duration::new((1 << 53) - 1, 999_999_999),
        Duration::new(1 << 53, 1),
        Duration::new((1 << 53) + 1, 500_000_000),
        Duration::new(u64::MAX - 2048, 0),
        Duration::new(u64::MAX - 1024, 0),
        Duration::new(u64::MAX - 1023, 0),
        Duration::new(u64::MAX, 0),
        Duration::MAX,
    ];
    let factors = [
        f64::from_bits(1),
        f64::from_bits((1 << 52) - 1),
        f64::MIN_POSITIVE,
        1e-300,
        5e-10,
        0.5,
        1.0 - f64::EPSILON / 2.0,
        1.0,
        1.0 + f64::EPSILON,
        1.5,
        2.0,
        1e9,
        1e19,
        1e300,
        f64::MAX,
    ];
    for base in bases {
        for factor in factors {
            assert_eq!(
                saturating_mul_f64(base, number(factor)),
                hardware(base, factor),
                "{base:?} * {factor:e}"
            );
        }
    }
}
