//! Time abstraction.
//!
//! The library never reads the wall clock itself. Any policy that needs to
//! know how much time has elapsed asks the host for it through a [`Clock`].
use core::time::Duration;
use vstd::prelude::*;

use crate::time;

verus! {

/// A source of monotonic time supplied by the host environment.
///
/// Implementors decide what an "instant" is: a real point in time, a count of
/// milliseconds from a virtual clock, a block height, or a logical tick.
pub trait Clock {
    /// The host's representation of a point in time.
    type Instant: Copy;

    /// Whether `now` may return `instant`. A clock that does not say may return
    /// any instant.
    open spec fn reads(&self, instant: Self::Instant) -> bool {
        true
    }

    /// Whether `duration_since` may return `elapsed` for two instants. A clock
    /// that does not say may return anything.
    open spec fn measures(
        &self,
        earlier: Self::Instant,
        now: Self::Instant,
        elapsed: Duration,
    ) -> bool {
        true
    }

    /// The current instant.
    fn now(&self) -> (instant: Self::Instant)
        ensures
            self.reads(instant),
    ;

    /// The elapsed time from `earlier` to `now`.
    ///
    /// Implementations should return zero, not fail, if `now` precedes
    /// `earlier`.
    fn duration_since(&self, earlier: Self::Instant, now: Self::Instant) -> (elapsed: Duration)
        ensures
            self.measures(earlier, now, elapsed),
    ;
}

impl<C: Clock + ?Sized> Clock for &C {
    type Instant = C::Instant;

    open spec fn reads(&self, instant: Self::Instant) -> bool {
        (**self).reads(instant)
    }

    open spec fn measures(
        &self,
        earlier: Self::Instant,
        now: Self::Instant,
        elapsed: Duration,
    ) -> bool {
        (**self).measures(earlier, now, elapsed)
    }

    fn now(&self) -> (instant: Self::Instant)
        ensures
            C::reads(&**self, instant),
    {
        (**self).now()
    }

    fn duration_since(&self, earlier: Self::Instant, now: Self::Instant) -> (elapsed: Duration)
        ensures
            C::measures(&**self, earlier, now, elapsed),
    {
        (**self).duration_since(earlier, now)
    }
}

/// `std::time::Instant`, which is opaque here.
#[verifier::external_type_specification]
#[verifier::external_body]
pub struct ExInstant(std::time::Instant);

/// `std::time::Instant::now`: the instant of the call. It depends on the
/// machine, so nothing is said of it.
#[verifier::external_body]
fn system_instant() -> (r: std::time::Instant) {
    std::time::Instant::now()
}

/// The time from `earlier` to `later`, as
/// `std::time::Instant::saturating_duration_since` returns it.
pub uninterp spec fn elapsed_between(
    later: std::time::Instant,
    earlier: std::time::Instant,
) -> Duration;

/// `std::time::Instant::saturating_duration_since`: the time elapsed from
/// `earlier` to `later`, a function of the two instants. It saturates: of two
/// instants, at least one has no time elapsed since it up to the other.
#[verifier::external_body]
fn system_elapsed(later: std::time::Instant, earlier: std::time::Instant) -> (r: Duration)
    ensures
        r == elapsed_between(later, earlier),
        time::nanos(r) == 0 || time::nanos(elapsed_between(earlier, later)) == 0,
{
    later.saturating_duration_since(earlier)
}

/// A monotonic [`Clock`] backed by `std::time::Instant`.
#[derive(Debug, Clone, Copy)]
pub struct SystemClock;

impl Default for SystemClock {
    fn default() -> (r: Self)
        ensures
            r == SystemClock,
    {
        SystemClock
    }
}

impl Clock for SystemClock {
    type Instant = std::time::Instant;

    open spec fn measures(
        &self,
        earlier: Self::Instant,
        now: Self::Instant,
        elapsed: Duration,
    ) -> bool {
        elapsed == elapsed_between(now, earlier)
    }

    /// The instant of the call. It depends on the machine, so nothing is said
    /// of it.
    fn now(&self) -> (instant: Self::Instant) {
        system_instant()
    }

    fn duration_since(&self, earlier: Self::Instant, now: Self::Instant) -> (elapsed: Duration)
        ensures
            elapsed == elapsed_between(now, earlier),
            time::nanos(elapsed) == 0 || time::nanos(elapsed_between(earlier, now)) == 0,
            now == earlier ==> time::nanos(elapsed) == 0,
    {
        system_elapsed(now, earlier)
    }
}

} // verus!
