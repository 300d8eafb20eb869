use core::time::Duration;

use tardigrade::jitter::jittered;
use tardigrade::{Binary64, ExponentialBackoff, BackoffPolicy, Jitter, NoJitter, SplitMix64};

fn number(x: f64) -> Binary64 {
    Binary64::from_bits(x.to_bits())
}

fn value(x: Binary64) -> f64 {
    f64::from_bits(x.to_bits())
}

#[test]
fn no_jitter_is_identity() {
    let mut j = NoJitter;
    let base = Duration::from_millis(100);
    assert_eq!(j.apply(base, number(0.5)), base);
    assert_eq!(j.apply(base, number(1.0)), base);
}

#[test]
fn unit_values_are_in_range() {
    let mut rng = SplitMix64::new(7);
    for _ in 0..10_000 {
        let v = value(rng.next_unit_f64());
        assert!((0.0..1.0).contains(&v), "value out of range: {v}");
    }
}

#[test]
fn jitter_stays_within_symmetric_bounds() {
    let mut rng = SplitMix64::new(99);
    let base = Duration::from_millis(1000);
    for _ in 0..10_000 {
        let d = rng.apply(base, number(0.5));
        assert!(d >= Duration::from_millis(500));
        assert!(d < Duration::from_millis(1500));
    }
}

#[test]
fn seeded_streams_are_reproducible() {
    let mut a = SplitMix64::new(123);
    let mut b = SplitMix64::new(123);
    for _ in 0..100 {
        assert_eq!(a.next_u64(), b.next_u64());
    }
}

#[test]
fn same_seed_gives_the_same_unit_values() {
    let mut a = SplitMix64::new(42);
    let mut b = SplitMix64::new(42);
    assert_eq!(a.next_unit_f64(), b.next_unit_f64());
}

#[test]
fn known_values_of_the_generator() {
    let mut rng = SplitMix64::new(0);
    assert_eq!(rng.next_u64(), 0xE220_A839_7B1D_CDAF);
    assert_eq!(rng.next_u64(), 0x6E78_9E6A_A1B9_65F4);
    assert_eq!(rng.next_u64(), 0x06C4_5D18_8009_454F);
}

#[test]
fn unit_values_agree_with_hardware_floating_point() {
    let mut a = SplitMix64::new(5);
    let mut b = SplitMix64::new(5);
    for _ in 0..10_000 {
        let expected = (a.next_u64() >> 11) as f64 * (1.0 / (1u64 << 53) as f64);
        assert_eq!(value(b.next_unit_f64()), expected);
    }
}

#[test]
fn default_seed() {
    let mut a = SplitMix64::default();
    let mut b = SplitMix64::new(0x2545_F491_4F6C_DD1D);
    assert_eq!(a.next_u64(), b.next_u64());
}

#[test]
fn no_jitter_draws_the_midpoint() {
    assert_eq!(value(NoJitter.next_unit_f64()), 0.5);
}

#[test]
fn no_jitter_keeps_delays_beyond_floating_point_precision() {
    let base = Duration::new(1 << 60, 1);
    assert_eq!(NoJitter.apply(base, number(0.5)), base);
    assert_eq!(jittered(base, number(0.3), number(0.5)), base);
}

#[test]
fn zero_factor_and_zero_delay_are_left_alone() {
    let mut rng = SplitMix64::new(3);
    let base = Duration::from_millis(70);
    assert_eq!(rng.apply(base, number(0.0)), base);
    assert_eq!(rng.apply(base, number(-2.0)), base);
    assert_eq!(rng.apply(Duration::ZERO, number(0.5)), Duration::ZERO);
    // No value was drawn.
    assert_eq!(rng.next_u64(), SplitMix64::new(3).next_u64());
}

#[test]
fn factor_is_capped_at_one() {
    let base = Duration::from_millis(1000);
    let unit = number(0.25);
    let full = jittered(base, number(1.0), unit);
    assert_eq!(full, Duration::from_millis(500));
    assert_eq!(jittered(base, number(7.0), unit), full);
    assert_eq!(jittered(base, number(f64::INFINITY), unit), full);
    assert_eq!(jittered(base, number(f64::NAN), unit), full);
}

#[test]
fn extreme_draws_stay_in_the_half_open_range() {
    let base = Duration::from_millis(1000);
    let last = number(1.0 - f64::EPSILON / 2.0);
    assert_eq!(jittered(base, number(0.5), number(0.0)), Duration::from_millis(500));
    assert_eq!(jittered(base, number(0.5), last), Duration::from_nanos(1_499_999_999));
    assert_eq!(jittered(Duration::from_nanos(5), number(0.5), number(0.0)), Duration::from_nanos(3));
    assert_eq!(jittered(Duration::from_nanos(1), number(1e-9), last), Duration::from_nanos(1));
    assert_eq!(jittered(base, number(0.5), number(-0.0)), Duration::from_millis(500));
}

#[test]
fn draws_agree_with_hardware_floating_point() {
    let mut rng = SplitMix64::new(77);
    for _ in 0..50_000 {
        let base = Duration::from_nanos(1_000_000 + rng.next_u64() % 1_000_000_000_000);
        let factor = ((rng.next_u64() % 1000) + 1) as f64 / 1000.0;
        let unit = rng.next_unit_f64();
        let r = value(unit);
        let scale = (1.0 - factor) + r * (2.0 * factor);
        let expected = Duration::from_secs_f64(base.as_secs_f64() * scale);
        assert_eq!(jittered(base, number(factor), unit), expected);
    }
}

#[test]
fn jitter_through_a_mutable_reference() {
    let mut rng = SplitMix64::new(8);
    let mut same = SplitMix64::new(8);
    let base = Duration::from_millis(10);
    let through = (&mut rng).apply(base, number(0.5));
    assert_eq!(through, same.apply(base, number(0.5)));
    let mut p = ExponentialBackoff::new(base, number(2.0)).with_jitter(&mut rng, number(0.5));
    assert_eq!(p.next_delay(), Some(same.apply(base, number(0.5))));
}

#[test]
fn only_the_midpoint_keeps_a_delay_beyond_floating_point_precision() {
    // The scale of this draw rounds to one, but the product loses the last second.
    let base = Duration::from_secs((1 << 53) + 1);
    let beside = number(0.5 + f64::EPSILON / 2.0);
    assert_eq!(jittered(base, number(0.5), beside), Duration::from_secs(1 << 53));
    assert_eq!(jittered(base, number(0.5), number(0.5)), base);
}

#[test]
fn a_factor_above_one_acts_as_one() {
    let base = Duration::from_millis(900);
    for factor in [1.5, 40.0, f64::INFINITY, f64::NAN] {
        let mut a = SplitMix64::new(31);
        let mut b = SplitMix64::new(31);
        for _ in 0..100 {
            assert_eq!(a.apply(base, number(factor)), b.apply(base, number(1.0)));
        }
        assert_eq!(a.next_u64(), b.next_u64());
    }
}
