use core::cell::Cell;
use core::time::Duration;

use tardigrade::{
    BackoffPolicy, Binary64, Clock, Constant, ExponentialBackoff, MaxAttempts, MaxElapsedTime,
    NoJitter, PolicyExt, SplitMix64, SystemClock, WithMaxDelay,
};

fn number(x: f64) -> Binary64 {
    Binary64::from_bits(x.to_bits())
}

#[test]
fn exponential_grows_and_resets() {
    let mut p = ExponentialBackoff::new(Duration::from_millis(100), number(2.0));
    assert_eq!(p.next_delay(), Some(Duration::from_millis(100)));
    assert_eq!(p.next_delay(), Some(Duration::from_millis(200)));
    assert_eq!(p.next_delay(), Some(Duration::from_millis(400)));
    p.reset();
    assert_eq!(p.next_delay(), Some(Duration::from_millis(100)));
}

#[test]
fn exponential_never_panics_on_overflow() {
    let mut p = ExponentialBackoff::new(Duration::from_secs(u64::MAX / 2), number(4.0));
    for _ in 0..1000 {
        let _ = p.next_delay();
    }
    assert_eq!(p.next_delay(), Some(Duration::MAX));
}

#[test]
fn max_attempts_stops() {
    let mut p = Constant::new(Duration::from_millis(10)).max_attempts(3);
    assert!(p.next_delay().is_some());
    assert!(p.next_delay().is_some());
    assert!(p.next_delay().is_some());
    assert_eq!(p.next_delay(), None);
    p.reset();
    assert!(p.next_delay().is_some());
}

#[test]
fn with_max_delay_clamps() {
    let mut p = ExponentialBackoff::new(Duration::from_millis(100), number(10.0))
        .with_max_delay(Duration::from_millis(500));
    assert_eq!(p.next_delay(), Some(Duration::from_millis(100)));
    assert_eq!(p.next_delay(), Some(Duration::from_millis(500))); // would be 1000
    assert_eq!(p.next_delay(), Some(Duration::from_millis(500)));
}

struct VirtualClock {
    now_ms: Cell<u64>,
}

impl Clock for VirtualClock {
    type Instant = u64;
    fn now(&self) -> u64 {
        self.now_ms.get()
    }
    fn duration_since(&self, earlier: u64, now: u64) -> Duration {
        Duration::from_millis(now.saturating_sub(earlier))
    }
}

#[test]
fn max_elapsed_time_stops() {
    let clock = VirtualClock { now_ms: Cell::new(0) };
    let mut p = Constant::new(Duration::from_millis(100))
        .max_elapsed_time(&clock, Duration::from_millis(250));

    assert!(p.next_delay().is_some()); // t=0
    clock.now_ms.set(100);
    assert!(p.next_delay().is_some()); // t=100
    clock.now_ms.set(250);
    assert_eq!(p.next_delay(), None); // budget exhausted
}

#[test]
fn max_elapsed_time_starts_anew_after_a_reset() {
    let clock = VirtualClock { now_ms: Cell::new(5) };
    let mut p = Constant::new(Duration::from_millis(100))
        .max_elapsed_time(&clock, Duration::from_millis(250));
    assert!(p.next_delay().is_some());
    clock.now_ms.set(255);
    assert_eq!(p.next_delay(), None);
    p.reset();
    assert!(p.next_delay().is_some());
    assert_eq!(p.next_delay_at(504), Some(Duration::from_millis(100)));
    assert_eq!(p.next_delay_at(505), None);
}

#[test]
fn an_empty_time_budget_grants_nothing() {
    let mut p = Constant::new(Duration::from_millis(1)).max_elapsed_time(SystemClock, Duration::ZERO);
    assert_eq!(p.next_delay(), None);
}

#[test]
fn system_clock_measures_time() {
    let clock = SystemClock::default();
    let start = clock.now();
    let later = start + Duration::from_millis(250);
    assert_eq!(clock.duration_since(start, later), Duration::from_millis(250));
    assert_eq!(clock.duration_since(later, start), Duration::ZERO);
    let mut p = Constant::new(Duration::from_millis(1))
        .max_elapsed_time(clock, Duration::from_secs(3600));
    assert_eq!(p.next_delay(), Some(Duration::from_millis(1)));
}

#[test]
fn constant_never_changes() {
    let mut p = Constant::new(Duration::from_millis(250));
    assert_eq!(p.next_delay(), Some(Duration::from_millis(250)));
    assert_eq!(p.next_delay(), Some(Duration::from_millis(250)));
    p.reset();
    assert_eq!(p.next_delay(), Some(Duration::from_millis(250)));
}

#[test]
fn default_backoff() {
    let mut p = ExponentialBackoff::default();
    assert_eq!(p.next_delay(), Some(Duration::from_millis(500)));
    assert_eq!(p.next_delay(), Some(Duration::from_millis(750)));
    assert_eq!(p.next_delay(), Some(Duration::from_millis(1125)));
}

#[test]
fn multipliers_that_stand_for_no_growth() {
    for m in [0.0, -0.0, -2.0, f64::NAN, f64::INFINITY, f64::NEG_INFINITY] {
        let mut p = ExponentialBackoff::new(Duration::from_millis(100), number(m));
        for _ in 0..3 {
            assert_eq!(p.next_delay(), Some(Duration::from_millis(100)));
        }
    }
}

#[test]
fn jittered_backoff_spreads_around_the_nominal_delay() {
    let mut p = ExponentialBackoff::new(Duration::from_millis(1000), number(2.0))
        .with_jitter(SplitMix64::new(42), number(0.5));
    let d = p.next_delay().unwrap();
    assert!(d >= Duration::from_millis(500) && d < Duration::from_millis(1500));
    let d = p.next_delay().unwrap();
    assert!(d >= Duration::from_millis(1000) && d < Duration::from_millis(3000));
}

#[test]
fn randomization_factor_is_clamped() {
    let base = Duration::from_millis(1000);
    let backoff = |factor: f64| {
        ExponentialBackoff::new(base, number(1.0))
            .with_jitter(SplitMix64::new(1), number(factor))
            .next_delay()
    };
    assert_eq!(backoff(-3.0), Some(base));
    assert_eq!(backoff(f64::NEG_INFINITY), Some(base));
    assert_eq!(backoff(-0.0), Some(base));
    assert_eq!(backoff(5.0), backoff(1.0));
    assert_eq!(backoff(f64::INFINITY), backoff(1.0));
    assert_eq!(backoff(f64::NAN), backoff(1.0));
}

#[test]
fn jitter_source_is_kept_by_a_reset() {
    let make = || {
        ExponentialBackoff::new(Duration::from_millis(1000), number(1.0))
            .with_jitter(SplitMix64::new(6), number(0.5))
    };
    let mut plain = make();
    let mut rewound = make();
    let _ = plain.next_delay();
    let _ = rewound.next_delay();
    rewound.reset();
    assert_eq!(plain.next_delay(), rewound.next_delay());
}

#[test]
fn wrappers_hand_back_the_inner_policy() {
    let inner = Constant::new(Duration::from_millis(3));
    let mut a = MaxAttempts::new(inner, 0);
    assert_eq!(a.next_delay(), None);
    assert_eq!(a.into_inner().next_delay(), Some(Duration::from_millis(3)));
    let b = WithMaxDelay::new(inner, Duration::ZERO);
    assert_eq!(b.into_inner().next_delay(), Some(Duration::from_millis(3)));
    let c = MaxElapsedTime::new(inner, SystemClock, Duration::ZERO);
    assert_eq!(c.into_inner().next_delay(), Some(Duration::from_millis(3)));
    let mut copy = *MaxAttempts::new(inner, 1).inner();
    assert_eq!(copy.next_delay(), Some(Duration::from_millis(3)));
    let mut copy = *b.inner();
    assert_eq!(copy.next_delay(), Some(Duration::from_millis(3)));
    let mut copy = *c.inner();
    assert_eq!(copy.next_delay(), Some(Duration::from_millis(3)));
}

#[test]
fn an_inner_refusal_does_not_use_up_an_attempt() {
    let mut p = Constant::new(Duration::from_millis(1)).max_attempts(1).max_attempts(5);
    assert!(p.next_delay().is_some());
    assert_eq!(p.next_delay(), None);
    assert_eq!(p.next_delay(), None);
    p.reset();
    assert!(p.next_delay().is_some());
}

#[test]
fn boxed_policy_forwards() {
    let mut p = Box::new(ExponentialBackoff::new(Duration::from_millis(10), number(2.0)))
        .max_attempts(2);
    assert_eq!(p.next_delay(), Some(Duration::from_millis(10)));
    assert_eq!(p.next_delay(), Some(Duration::from_millis(20)));
    assert_eq!(p.next_delay(), None);
    p.reset();
    assert_eq!(p.next_delay(), Some(Duration::from_millis(10)));
}

#[test]
fn no_jitter_with_a_spread_is_still_exact() {
    let mut p = ExponentialBackoff::new(Duration::from_millis(100), number(3.0))
        .with_jitter(NoJitter, number(0.7));
    assert_eq!(p.next_delay(), Some(Duration::from_millis(100)));
    assert_eq!(p.next_delay(), Some(Duration::from_millis(300)));
}

#[test]
fn doubling_reaches_the_longest_delay_and_stays() {
    let mut p = ExponentialBackoff::new(Duration::from_nanos(1), number(2.0));
    for i in 0..94u32 {
        let delay = p.next_delay().unwrap();
        assert!(delay < Duration::MAX);
        if i < 50 {
            assert_eq!(delay, Duration::from_nanos(1u64 << i));
        }
    }
    for _ in 0..10 {
        assert_eq!(p.next_delay(), Some(Duration::MAX));
    }
}

#[test]
fn whole_powers_are_exact() {
    let mut p = ExponentialBackoff::new(Duration::from_nanos(7), number(3.0));
    let mut expected = 7u64;
    while expected < 1u64 << 50 {
        assert_eq!(p.next_delay(), Some(Duration::from_nanos(expected)));
        expected *= 3;
    }
}

#[test]
fn caps_compose() {
    let mut p = ExponentialBackoff::new(Duration::from_millis(50), number(2.0))
        .with_max_delay(Duration::from_millis(150))
        .max_attempts(4);
    let expected: [u64; 4] = [50, 100, 150, 150];
    for ms in expected {
        assert_eq!(p.next_delay(), Some(Duration::from_millis(ms)));
    }
    assert_eq!(p.next_delay(), None);
}

#[test]
fn a_budget_decides_at_the_given_instant() {
    let clock = VirtualClock { now_ms: Cell::new(0) };
    let mut p = Constant::new(Duration::from_millis(1))
        .max_attempts(2)
        .max_elapsed_time(&clock, Duration::from_millis(10));
    assert!(p.next_delay_at(5).is_some());
    assert_eq!(p.next_delay_at(15), None);
    // The refusal has not used up an attempt.
    assert!(p.next_delay_at(14).is_some());
    assert_eq!(p.next_delay_at(14), None);
}

#[test]
fn a_clamped_factor_gives_the_same_delays() {
    for factor in [-3.0, -0.0, 0.0, 0.4, 1.0, 2.5, f64::INFINITY, f64::NEG_INFINITY] {
        let initial = Duration::from_millis(100);
        let mut a = ExponentialBackoff::new(initial, number(1.5))
            .with_jitter(SplitMix64::new(5), number(factor));
        let mut b = ExponentialBackoff::new(initial, number(1.5))
            .with_jitter(SplitMix64::new(5), number(factor.clamp(0.0, 1.0)));
        let mut plain = ExponentialBackoff::new(initial, number(1.5));
        for i in 0..30 {
            if i % 11 == 10 {
                a.reset();
                b.reset();
                plain.reset();
            }
            let delay = a.next_delay();
            let nominal = plain.next_delay();
            assert_eq!(delay, b.next_delay());
            if factor <= 0.0 {
                assert_eq!(delay, nominal);
            }
        }
    }
}

#[test]
fn nested_attempt_caps_act_as_the_smaller_one() {
    let caps: [(u32, u32); 4] = [(2, 5), (5, 2), (3, 3), (0, 4)];
    for (a, b) in caps {
        let inner = ExponentialBackoff::new(Duration::from_millis(1), number(2.0));
        let mut nested = inner.max_attempts(a).max_attempts(b);
        let mut single = inner.max_attempts(if a < b { a } else { b });
        for i in 0..20 {
            if i % 7 == 6 {
                nested.reset();
                single.reset();
            }
            assert_eq!(nested.next_delay(), single.next_delay());
        }
    }
}

#[test]
fn caps_commute() {
    let inner = ExponentialBackoff::new(Duration::from_millis(1), number(3.0));
    let cap = Duration::from_millis(20);
    let mut a = inner.max_attempts(4).with_max_delay(cap);
    let mut b = inner.with_max_delay(cap).max_attempts(4);
    for _ in 0..3 {
        let mut granted: u32 = 0;
        for _ in 0..6 {
            let delay = a.next_delay();
            assert_eq!(delay, b.next_delay());
            if let Some(d) = delay {
                assert!(d <= cap);
                granted += 1;
            }
        }
        assert_eq!(granted, 4);
        a.reset();
        b.reset();
    }
}

#[test]
fn delays_never_shrink() {
    let starts = [
        Duration::from_nanos(1),
        Duration::from_nanos(8_388_607_999_999_999),
        Duration::from_secs(1 << 23),
    ];
    for start in starts {
        for multiplier in [1.0, 1.0 + f64::EPSILON, 1.1, 1.5, 2.0, 1e30] {
            let mut p = ExponentialBackoff::new(start, number(multiplier));
            let mut last = Duration::ZERO;
            for _ in 0..1000 {
                let delay = p.next_delay().unwrap();
                assert!(delay >= last);
                last = delay;
            }
        }
    }
}
