use core::cell::Cell;
use core::ops::ControlFlow;
use core::time::Duration;

use tardigrade::{
    retry_host, retry_step, retry_sync, retry_with, BackoffPolicy, Binary64, Clock, Constant,
    ExponentialBackoff, Host, PolicyExt, RetryError, SplitMix64, Step,
};

fn number(x: f64) -> Binary64 {
    Binary64::from_bits(x.to_bits())
}

#[test]
fn sync_succeeds_after_retries() {
    let policy = ExponentialBackoff::new(Duration::from_millis(1), number(2.0)).max_attempts(10);
    let mut attempts = 0u32;
    let mut slept = Duration::ZERO;

    let out: Result<&str, RetryError<u32>> = retry_sync(
        policy,
        || {
            attempts += 1;
            if attempts < 4 {
                ControlFlow::Continue(attempts)
            } else {
                ControlFlow::Break("ok")
            }
        },
        |d| slept += d,
    );

    assert_eq!(out, Ok("ok"));
    assert_eq!(attempts, 4);
    // 3 sleeps of 1ms, 2ms, 4ms.
    assert_eq!(slept, Duration::from_millis(7));
}

#[test]
fn sync_exhausts_and_returns_last_state() {
    let policy = Constant::new(Duration::from_millis(1)).max_attempts(3);
    let mut attempts = 0u32;
    let out: Result<(), RetryError<u32>> = retry_sync(
        policy,
        || {
            attempts += 1;
            ControlFlow::Continue(attempts)
        },
        |_d| {},
    );
    // 1 initial try + 3 retries = 4 operation calls; last state is 4.
    assert_eq!(out, Err(RetryError::Exhausted(4)));
    assert_eq!(attempts, 4);
}

#[test]
fn sync_breaks_immediately_without_sleeping() {
    let policy = Constant::new(Duration::from_secs(99));
    let mut slept = false;
    let out: Result<i32, RetryError<()>> =
        retry_sync(policy, || ControlFlow::Break(7), |_d| slept = true);
    assert_eq!(out, Ok(7));
    assert!(!slept);
}

/// A fully deterministic virtual clock measured in milliseconds.
struct VirtualClock {
    now_ms: Cell<u64>,
}

impl Clock for VirtualClock {
    type Instant = u64;
    fn now(&self) -> u64 {
        self.now_ms.get()
    }
    fn duration_since(&self, earlier: u64, now: u64) -> Duration {
        Duration::from_millis(now.saturating_sub(earlier))
    }
}

#[test]
fn elapsed_time_budget_against_virtual_clock() {
    let clock = VirtualClock { now_ms: Cell::new(0) };
    // Sleep advances the same virtual clock the policy reads from.
    let mut policy = ExponentialBackoff::new(Duration::from_millis(100), number(2.0))
        .max_elapsed_time(&clock, Duration::from_millis(1_000));

    let mut attempts = 0u32;
    let out: Result<(), RetryError<u32>> = retry_sync(
        &mut policy,
        || {
            attempts += 1;
            ControlFlow::Continue(attempts)
        },
        |delay| clock.now_ms.set(clock.now_ms.get() + delay.as_millis() as u64),
    );

    assert!(matches!(out, Err(RetryError::Exhausted(_))));
    // The loop must have given up once the 1s budget elapsed.
    assert!(clock.now_ms.get() >= 1_000);
}

#[test]
fn jitter_is_reproducible_for_a_fixed_seed() {
    fn collect(seed: u64) -> Vec<Duration> {
        let mut p = ExponentialBackoff::new(Duration::from_millis(1_000), number(2.0))
            .with_jitter(SplitMix64::new(seed), number(0.5));
        (0..8).map(|_| p.next_delay().unwrap()).collect()
    }
    // Same seed => identical delay sequence (critical for P2P sim tests).
    assert_eq!(collect(0xDEAD_BEEF), collect(0xDEAD_BEEF));
    // Different seed => (almost certainly) different sequence.
    assert_ne!(collect(1), collect(2));
}

#[test]
fn composed_policy_reaches_success() {
    let policy = ExponentialBackoff::new(Duration::from_millis(50), number(2.0))
        .with_max_delay(Duration::from_secs(5))
        .max_attempts(4);
    let mut tries = 0u32;
    let mut elapsed = Duration::ZERO;
    let result: Result<&str, RetryError<&str>> = retry_sync(
        policy,
        || {
            tries += 1;
            if tries >= 3 {
                ControlFlow::Break("connected")
            } else {
                ControlFlow::Continue("connection refused")
            }
        },
        |delay| elapsed += delay,
    );
    assert_eq!(result, Ok("connected"));
    assert_eq!(elapsed, Duration::from_millis(150));
}

#[test]
fn steps_follow_the_outcome() {
    let mut policy = Constant::new(Duration::from_millis(5)).max_attempts(1);
    assert_eq!(
        retry_step::<_, i32, &str>(&mut policy, ControlFlow::Break(1)),
        Step::Done(Ok(1))
    );
    assert_eq!(
        retry_step::<_, i32, &str>(&mut policy, ControlFlow::Continue("a")),
        Step::Wait(Duration::from_millis(5))
    );
    assert_eq!(
        retry_step::<_, i32, &str>(&mut policy, ControlFlow::Continue("b")),
        Step::Done(Err(RetryError::Exhausted("b")))
    );
    assert_eq!(
        retry_step::<_, i32, &str>(&mut policy, ControlFlow::Break(2)),
        Step::Done(Ok(2))
    );
}

#[test]
fn error_gives_back_the_last_state() {
    let error = RetryError::Exhausted(String::from("down"));
    assert_eq!(error.last_state(), "down");
    assert_eq!(error.into_last_state(), "down");
}

#[test]
fn error_message_shows_the_last_state() {
    let error = RetryError::Exhausted(17);
    assert_eq!(error.message(), "retry policy exhausted (last state: 17)");
    assert_eq!(
        tardigrade::exec::exhausted_message("down"),
        "retry policy exhausted (last state: down)"
    );
}

#[test]
fn giving_up_returns_the_state() {
    let policy = Constant::new(Duration::from_millis(1)).max_attempts(2);
    let result: Result<(), RetryError<i32>> =
        retry_sync(policy, || ControlFlow::Continue(-1), |_d| {});
    assert_eq!(result, Err(RetryError::Exhausted(-1)));
}

#[test]
fn default_backoff_warms_up() {
    let policy = ExponentialBackoff::default().max_attempts(5);
    let mut attempts = 0u32;
    let mut virtual_clock = Duration::ZERO;
    let result: Result<u32, RetryError<&'static str>> = retry_sync(
        policy,
        || {
            attempts += 1;
            if attempts < 3 {
                ControlFlow::Continue("service warming up")
            } else {
                ControlFlow::Break(attempts)
            }
        },
        |delay| virtual_clock += delay,
    );
    assert_eq!(result, Ok(3));
    assert_eq!(attempts, 3);
    assert_eq!(virtual_clock, Duration::from_millis(1250));
}

#[test]
fn a_limit_of_zero_tries_once() {
    let mut calls = 0;
    let result: Result<(), RetryError<&str>> = retry_sync(
        Constant::new(Duration::ZERO).max_attempts(0),
        || {
            calls += 1;
            ControlFlow::Continue("no")
        },
        |_d| panic!("slept"),
    );
    assert_eq!(result, Err(RetryError::Exhausted("no")));
    assert_eq!(calls, 1);
}

#[test]
fn a_borrowed_policy_is_left_as_the_loop_found_it() {
    let mut policy = ExponentialBackoff::new(Duration::from_millis(1), number(2.0)).max_attempts(3);
    let mut attempts = 0u32;
    let out: Result<u32, RetryError<u32>> = retry_with(
        &mut policy,
        || {
            attempts += 1;
            if attempts < 3 {
                ControlFlow::Continue(attempts)
            } else {
                ControlFlow::Break(attempts)
            }
        },
        |_delay| {},
    );
    assert_eq!(out, Ok(3));
    // Two delays are gone, the third is still there.
    assert_eq!(policy.next_delay(), Some(Duration::from_millis(4)));
    let out: Result<(), RetryError<i32>> =
        retry_with(&mut policy, || ControlFlow::Continue(9), |_delay| {});
    assert_eq!(out, Err(RetryError::Exhausted(9)));
    // It stays exhausted until it is reset.
    assert_eq!(policy.next_delay(), None);
    policy.reset();
    let out: Result<(), RetryError<i32>> =
        retry_sync(&mut policy, || ControlFlow::Continue(9), |_delay| {});
    assert_eq!(out, Err(RetryError::Exhausted(9)));
    assert_eq!(policy.next_delay(), None);
}

/// A host that writes down what is asked of it.
struct Recorder {
    succeeds_at: usize,
    attempts: usize,
    log: Vec<String>,
}

impl Host<&'static str, usize> for Recorder {
    fn attempt(&mut self) -> ControlFlow<&'static str, usize> {
        self.attempts += 1;
        self.log.push(format!("attempt {}", self.attempts));
        if self.attempts == self.succeeds_at {
            ControlFlow::Break("done")
        } else {
            ControlFlow::Continue(self.attempts)
        }
    }

    fn sleep(&mut self, delay: Duration) {
        self.log.push(format!("sleep {}", delay.as_millis()));
    }
}

#[test]
fn a_host_is_attempted_once_per_round() {
    let mut policy = ExponentialBackoff::new(Duration::from_millis(1), number(2.0)).max_attempts(3);
    let mut host = Recorder { succeeds_at: 3, attempts: 0, log: vec![] };
    assert_eq!(retry_host(&mut policy, &mut host), Ok("done"));
    assert_eq!(host.log, ["attempt 1", "sleep 1", "attempt 2", "sleep 2", "attempt 3"]);
    assert_eq!(policy.next_delay(), Some(Duration::from_millis(4)));
}

#[test]
fn a_host_that_never_succeeds_gives_back_its_last_state() {
    let mut policy = Constant::new(Duration::from_millis(5)).max_attempts(2);
    let mut host = Recorder { succeeds_at: 0, attempts: 0, log: vec![] };
    assert_eq!(retry_host(&mut policy, &mut host), Err(RetryError::Exhausted(3)));
    assert_eq!(host.log, ["attempt 1", "sleep 5", "attempt 2", "sleep 5", "attempt 3"]);
    assert_eq!(policy.next_delay(), None);
}
