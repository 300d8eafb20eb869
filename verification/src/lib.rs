//! # tardigrade
//!
//! A generic, execution-agnostic and time-agnostic backoff and retry utility,
//! built as a pure state machine and verified with Verus.
//!
//! Tardigrades survive vacuum, radiation and deep freeze by entering a dormant
//! state and waiting it out. This crate computes *when* to wake up and try
//! again, and nothing else.
//!
//! * Time is `core::time::Duration`; instants come from your [`Clock`].
//! * Randomness is injected via [`Jitter`] (none by default).
//! * Execution is driven by your own `sleep`.
//! * Multipliers and spread factors are binary64 numbers, held as
//!   [`Binary64`]; nothing fails on overflow, NaN or infinity.
//!
//! Every policy states, as a relation between its state before and after a
//! call, what `next_delay` and `reset` may do. The [`laws`] build on that, the
//! [`criteria`] hold single results against their inputs, and the [`ledger`]
//! accounts for the calls of a closure.
//!
//! ```
//! use core::ops::ControlFlow;
//! use core::time::Duration;
//! use tardigrade::{retry_sync, Binary64, ExponentialBackoff, PolicyExt, RetryError};
//!
//! let twice = Binary64::from_bits(2.0f64.to_bits());
//! let policy = ExponentialBackoff::new(Duration::from_millis(50), twice)
//!     .with_max_delay(Duration::from_secs(5))
//!     .max_attempts(4);
//!
//! let mut tries = 0u32;
//! let mut elapsed = Duration::ZERO;
//! let result: Result<&str, RetryError<&str>> = retry_sync(
//!     policy,
//!     || {
//!         tries += 1;
//!         if tries >= 3 { ControlFlow::Break("connected") }
//!         else { ControlFlow::Continue("connection refused") }
//!     },
//!     |delay| elapsed += delay,
//! );
//! assert_eq!(result, Ok("connected"));
//! ```
pub mod clock;
pub mod criteria;
pub mod exec;
pub mod float;
pub mod jitter;
pub mod laws;
pub mod ledger;
pub mod policy;
pub mod rounding;
pub mod time;
pub mod util;

pub use clock::{Clock, SystemClock};
pub use exec::{retry_host, retry_step, retry_sync, retry_with, Host, RetryError, Step};
pub use float::Binary64;
pub use jitter::{Jitter, NoJitter, SplitMix64};
pub use policy::{
    BackoffPolicy, Constant, ExponentialBackoff, MaxAttempts, MaxElapsedTime, PolicyExt,
    WithMaxDelay,
};
