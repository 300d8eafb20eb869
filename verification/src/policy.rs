//! Backoff policies: pure, allocation-free state machines.
//!
//! A [`BackoffPolicy`] answers exactly one question: given that the last
//! attempt failed, how long should I wait before the next one, if at all? It
//! never sleeps and never performs the operation.
//!
//! Policies compose. Start with a base generator like [`ExponentialBackoff`] or
//! [`Constant`], then layer caps on top using [`PolicyExt`].
use core::time::Duration;
use vstd::prelude::*;

use crate::clock::Clock;
use crate::criteria;
use crate::float::Binary64;
use crate::jitter;
use crate::jitter::{Jitter, NoJitter};
use crate::time;
use crate::util;

verus! {

/// The core retry-timing state machine.
///
/// Implementations are mutable state machines driven entirely by `next_delay`
/// and rewound by `reset`. They contain no I/O.
pub trait BackoffPolicy {
    /// Whether `next_delay` may return `delay` and leave the policy as `post`.
    /// A policy that does not say may return anything.
    open spec fn advances(&self, post: &Self, delay: Option<Duration>) -> bool {
        true
    }

    /// Whether `reset` may leave the policy as `post`.
    open spec fn rewinds(&self, post: &Self) -> bool {
        true
    }

    /// Advance the state machine and return the delay to wait before the next
    /// attempt. `None` means "stop retrying".
    fn next_delay(&mut self) -> (delay: Option<Duration>)
        ensures
            Self::advances(&*old(self), &*final(self), delay),
    ;

    /// Rewind the state machine so it can be reused.
    fn reset(&mut self)
        ensures
            Self::rewinds(&*old(self), &*final(self)),
    ;
}

/// Whether a policy, going through `states`, hands out exactly `delays`.
pub open spec fn hands_out<P: BackoffPolicy>(states: Seq<P>, delays: Seq<Duration>) -> bool {
    &&& states.len() == delays.len() + 1
    &&& forall|i: int|
        0 <= i < delays.len() ==> P::advances(&states[i], &states[i + 1], Some(#[trigger] delays[i]))
}

/// Whether a policy never stops of its own accord.
pub open spec fn endless<P: BackoffPolicy>() -> bool {
    forall|pre: P, post: P| !(#[trigger] P::advances(&pre, &post, None))
}

/// A call of a policy's method: `next_delay` with what it returned, or `reset`.
pub enum Call {
    /// `next_delay`, and its result.
    Next(Option<Duration>),
    /// `reset`.
    Reset,
}

/// Whether a policy goes through `states` by exactly `calls`.
pub open spec fn goes_through<P: BackoffPolicy>(states: Seq<P>, calls: Seq<Call>) -> bool {
    &&& states.len() == calls.len() + 1
    &&& forall|i: int|
        0 <= i < calls.len() ==> match #[trigger] calls[i] {
            Call::Next(delay) => P::advances(&states[i], &states[i + 1], delay),
            Call::Reset => P::rewinds(&states[i], &states[i + 1]),
        }
}

/// Whether two runs make the same calls, whatever is returned.
pub open spec fn same_calls(a: Seq<Call>, b: Seq<Call>) -> bool {
    &&& a.len() == b.len()
    &&& forall|i: int| 0 <= i < a.len() ==> (#[trigger] a[i] is Reset <==> #[trigger] b[i] is Reset)
}

/// Whether two answers are the same: no delay, or delays of the same length.
pub open spec fn same_delay(a: Option<Duration>, b: Option<Duration>) -> bool {
    match (a, b) {
        (Some(x), Some(y)) => time::nanos(x) == time::nanos(y),
        (None, None) => true,
        _ => false,
    }
}

/// Whether two calls are the same and return the same.
pub open spec fn same_answer(a: Call, b: Call) -> bool {
    match (a, b) {
        (Call::Next(x), Call::Next(y)) => same_delay(x, y),
        (Call::Reset, Call::Reset) => true,
        _ => false,
    }
}

/// Whether two runs make the same calls and are given the same answers.
pub open spec fn same_answers(a: Seq<Call>, b: Seq<Call>) -> bool {
    &&& a.len() == b.len()
    &&& forall|i: int| 0 <= i < a.len() ==> same_answer(#[trigger] a[i], #[trigger] b[i])
}

/// Whether policies that are alike answer the same and stay alike: what they do
/// depends only on what makes them alike.
pub open spec fn in_step<P: BackoffPolicy, Q: BackoffPolicy>(alike: spec_fn(P, Q) -> bool) -> bool {
    &&& forall|p: P, p_post: P, d: Option<Duration>, q: Q, q_post: Q, e: Option<Duration>|
        alike(p, q) && #[trigger] P::advances(&p, &p_post, d) && #[trigger] Q::advances(
            &q,
            &q_post,
            e,
        ) ==> alike(p_post, q_post) && same_delay(d, e)
    &&& forall|p: P, p_post: P, q: Q, q_post: Q|
        alike(p, q) && #[trigger] P::rewinds(&p, &p_post) && #[trigger] Q::rewinds(&q, &q_post)
            ==> alike(p_post, q_post)
}

impl<P: BackoffPolicy + ?Sized> BackoffPolicy for &mut P {
    open spec fn advances(&self, post: &Self, delay: Option<Duration>) -> bool {
        P::advances(&**self, &**post, delay)
    }

    open spec fn rewinds(&self, post: &Self) -> bool {
        P::rewinds(&**self, &**post)
    }

    fn next_delay(&mut self) -> (delay: Option<Duration>)
        ensures
            P::advances(&**old(self), &**final(self), delay),
    {
        (**self).next_delay()
    }

    fn reset(&mut self)
        ensures
            P::rewinds(&**old(self), &**final(self)),
    {
        (**self).reset();
    }
}

impl<P: BackoffPolicy + ?Sized> BackoffPolicy for Box<P> {
    open spec fn advances(&self, post: &Self, delay: Option<Duration>) -> bool {
        P::advances(&**self, &**post, delay)
    }

    open spec fn rewinds(&self, post: &Self) -> bool {
        P::rewinds(&**self, &**post)
    }

    fn next_delay(&mut self) -> (delay: Option<Duration>)
        ensures
            P::advances(&**old(self), &**final(self), delay),
    {
        (**self).next_delay()
    }

    fn reset(&mut self)
        ensures
            P::rewinds(&**old(self), &**final(self)),
    {
        (**self).reset();
    }
}

/// A policy that always returns the same fixed delay, forever.
///
/// Useful as a base for composition or for simple fixed-interval polling.
#[derive(Debug, Clone, Copy)]
pub struct Constant {
    delay: Duration,
}

impl Constant {
    /// The fixed delay.
    pub closed spec fn delay(&self) -> Duration {
        self.delay
    }

    /// Create a policy that always waits `delay`.
    #[must_use]
    pub fn new(delay: Duration) -> (r: Self)
        ensures
            r.delay() == delay,
    {
        Self { delay }
    }
}

impl BackoffPolicy for Constant {
    open spec fn advances(&self, post: &Self, delay: Option<Duration>) -> bool {
        *post == *self && delay == Some(self.delay())
    }

    open spec fn rewinds(&self, post: &Self) -> bool {
        *post == *self
    }

    fn next_delay(&mut self) -> (delay: Option<Duration>) {
        Some(self.delay)
    }

    fn reset(&mut self) {
    }
}

/// Whether a multiplier stands for no growth: it is NaN, infinite, or not
/// above zero.
pub open spec fn no_growth(multiplier: Binary64) -> bool {
    multiplier.nan() || multiplier.infinite() || !multiplier.positive()
}

/// Whether an interval of `from` is followed by one of `to`.
pub open spec fn grows(from: Duration, multiplier: Binary64, to: Duration) -> bool {
    if no_growth(multiplier) {
        to == from
    } else {
        time::nanos(to) == util::scaled(time::nanos(from), multiplier)
    }
}

/// A spread factor clamped to the range from zero to one. NaN stays NaN.
pub open spec fn clamped_factor(factor: Binary64) -> u64 {
    if !factor.nan() && factor.negative() && factor.bits() != 0x8000_0000_0000_0000 {
        0
    } else if factor.positive() && (factor.infinite() || factor.units()
        > vstd::arithmetic::power2::pow2(1074)) {
        0x3ff0_0000_0000_0000
    } else {
        factor.bits()
    }
}

/// Classic exponential backoff with optional injected jitter.
///
/// The delay starts at `initial` and is multiplied by `multiplier` after every
/// call to `next_delay`. On its own it retries forever; pair it with
/// [`MaxAttempts`], [`WithMaxDelay`] or [`MaxElapsedTime`] to bound it.
///
/// The multiplication saturates: no matter how large the interval or the
/// multiplier grows, it pins at the longest duration.
///
/// The type parameter `J` selects the source of randomness and defaults to
/// [`NoJitter`]. A reset rewinds the interval; the source, which belongs to the
/// host, goes on from where it is.
#[derive(Debug, Clone, Copy)]
pub struct ExponentialBackoff<J = NoJitter> {
    initial: Duration,
    current: Duration,
    multiplier: Binary64,
    randomization_factor: Binary64,
    jitter: J,
}

impl<J> ExponentialBackoff<J> {
    /// The interval that the policy starts from.
    pub closed spec fn initial(&self) -> Duration {
        self.initial
    }

    /// The interval that the next delay is spread around.
    pub closed spec fn nominal(&self) -> Duration {
        self.current
    }

    /// What the interval is multiplied by after every delay.
    pub closed spec fn multiplier(&self) -> Binary64 {
        self.multiplier
    }

    /// How far delays are spread around the interval.
    pub closed spec fn spread(&self) -> Binary64 {
        self.randomization_factor
    }

    /// The source of randomness.
    pub closed spec fn source(&self) -> J {
        self.jitter
    }
}

impl ExponentialBackoff<NoJitter> {
    /// Create an exponential backoff starting at `initial`, scaled by
    /// `multiplier` after each attempt, with no jitter.
    ///
    /// A `multiplier` that is not above zero, or not finite, is treated as "no
    /// growth".
    #[must_use]
    pub fn new(initial: Duration, multiplier: Binary64) -> (r: Self)
        ensures
            r.initial() == initial,
            r.nominal() == initial,
            r.multiplier() == multiplier,
            r.spread().bits() == 0,
    {
        Self {
            initial,
            current: initial,
            multiplier,
            randomization_factor: Binary64::from_bits(0),
            jitter: NoJitter,
        }
    }
}

impl<J: Jitter> ExponentialBackoff<J> {
    /// Replace the jitter source and set the symmetric randomization factor,
    /// clamped to the range from zero to one.
    ///
    /// A factor of 0.3 means that each delay is spread uniformly within 30% of
    /// its nominal value either way.
    #[must_use]
    pub fn with_jitter<J2: Jitter>(
        self,
        jitter: J2,
        randomization_factor: Binary64,
    ) -> (r: ExponentialBackoff<J2>)
        ensures
            r.initial() == self.initial(),
            r.nominal() == self.nominal(),
            r.multiplier() == self.multiplier(),
            r.spread().bits() == clamped_factor(randomization_factor),
            randomization_factor.finite() && !randomization_factor.negative()
                && randomization_factor.units() <= vstd::arithmetic::power2::pow2(1074)
                ==> r.spread() == randomization_factor,
            r.source() == jitter,
    {
        let spread: Binary64 = clamp(randomization_factor);
        proof {
            criteria::law_factors_are_clamped(randomization_factor);
            if spread.bits() == randomization_factor.bits() {
                spread.lemma_same_bits(randomization_factor);
            }
        }
        ExponentialBackoff {
            initial: self.initial,
            current: self.current,
            multiplier: self.multiplier,
            randomization_factor: spread,
            jitter,
        }
    }
}

/// A spread factor clamped to the range from zero to one.
fn clamp(factor: Binary64) -> (r: Binary64)
    ensures
        r.bits() == clamped_factor(factor),
{
    if factor.is_nan() {
        return factor;
    }
    if factor.is_positive() {
        if factor.is_infinite() {
            return Binary64::one();
        }
        proof {
            crate::float::lemma_is_one(factor);
        }
        if !factor.below_one() {
            return Binary64::one();
        }
        factor
    } else if factor.to_bits() == 0x8000_0000_0000_0000 {
        factor
    } else {
        Binary64::from_bits(0)
    }
}

impl<J: Jitter> BackoffPolicy for ExponentialBackoff<J> {
    open spec fn advances(&self, post: &Self, delay: Option<Duration>) -> bool {
        &&& delay is Some
        &&& jitter::applies(
            &self.source(),
            &post.source(),
            self.nominal(),
            self.spread(),
            delay->0,
        )
        &&& grows(self.nominal(), self.multiplier(), post.nominal())
        &&& post.initial() == self.initial()
        &&& post.multiplier() == self.multiplier()
        &&& post.spread() == self.spread()
    }

    open spec fn rewinds(&self, post: &Self) -> bool {
        &&& post.nominal() == self.initial()
        &&& post.initial() == self.initial()
        &&& post.multiplier() == self.multiplier()
        &&& post.spread() == self.spread()
        &&& post.source() == self.source()
    }

    fn next_delay(&mut self) -> (delay: Option<Duration>) {
        // Jitter is applied to the current nominal interval...
        let delay = self.jitter.apply(self.current, self.randomization_factor);
        // ...then the nominal interval grows for next time (saturating).
        let m: Binary64 = self.multiplier;
        if !m.is_nan() && m.is_positive() && !m.is_infinite() {
            self.current = util::saturating_mul_f64(self.current, m);
        }
        Some(delay)
    }

    fn reset(&mut self) {
        self.current = self.initial;
    }
}

impl Default for ExponentialBackoff<NoJitter> {
    /// Sensible defaults: 500ms initial interval, 1.5x growth, no jitter.
    fn default() -> (r: Self)
        ensures
            time::nanos(r.initial()) == 500_000_000,
            r.nominal() == r.initial(),
            r.multiplier().bits() == 0x3ff8_0000_0000_0000,
            r.spread().bits() == 0,
    {
        Self::new(Duration::new(0, 500_000_000), Binary64::from_bits(0x3ff8_0000_0000_0000))
    }
}

/// Caps the total number of delays an inner policy may produce.
///
/// After `max` delays have been handed out, `next_delay` returns `None`.
#[derive(Debug, Clone, Copy)]
pub struct MaxAttempts<P> {
    inner: P,
    max: u32,
    count: u32,
}

impl<P> MaxAttempts<P> {
    /// The wrapped policy.
    pub closed spec fn wrapped(&self) -> P {
        self.inner
    }

    /// How many delays may be handed out.
    pub closed spec fn limit(&self) -> u32 {
        self.max
    }

    /// How many delays have been handed out.
    pub closed spec fn used(&self) -> u32 {
        self.count
    }

    /// Wrap `inner`, allowing at most `max` retries.
    #[must_use]
    pub fn new(inner: P, max: u32) -> (r: Self)
        ensures
            r.wrapped() == inner,
            r.limit() == max,
            r.used() == 0,
    {
        Self { inner, max, count: 0 }
    }

    /// Borrow the wrapped policy.
    pub fn inner(&self) -> (r: &P)
        ensures
            *r == self.wrapped(),
    {
        &self.inner
    }

    /// Consume the wrapper and return the inner policy.
    pub fn into_inner(self) -> (r: P)
        ensures
            r == self.wrapped(),
    {
        self.inner
    }
}

impl<P: BackoffPolicy> BackoffPolicy for MaxAttempts<P> {
    open spec fn advances(&self, post: &Self, delay: Option<Duration>) -> bool {
        if self.used() >= self.limit() {
            delay is None && *post == *self
        } else {
            &&& P::advances(&self.wrapped(), &post.wrapped(), delay)
            &&& post.limit() == self.limit()
            &&& post.used() == self.used() + if delay is Some {
                1int
            } else {
                0int
            }
        }
    }

    open spec fn rewinds(&self, post: &Self) -> bool {
        &&& P::rewinds(&self.wrapped(), &post.wrapped())
        &&& post.limit() == self.limit()
        &&& post.used() == 0
    }

    fn next_delay(&mut self) -> (delay: Option<Duration>) {
        if self.count >= self.max {
            return None;
        }
        let delay = self.inner.next_delay()?;
        self.count += 1;
        Some(delay)
    }

    fn reset(&mut self) {
        self.count = 0;
        self.inner.reset();
    }
}

/// Caps the maximum delay returned by an inner policy.
///
/// Any delay the inner policy produces is clamped down to `max_delay`.
#[derive(Debug, Clone, Copy)]
pub struct WithMaxDelay<P> {
    inner: P,
    max_delay: Duration,
}

impl<P> WithMaxDelay<P> {
    /// The wrapped policy.
    pub closed spec fn wrapped(&self) -> P {
        self.inner
    }

    /// The longest delay that is handed out.
    pub closed spec fn cap(&self) -> Duration {
        self.max_delay
    }

    /// Wrap `inner`, clamping every delay to at most `max_delay`.
    #[must_use]
    pub fn new(inner: P, max_delay: Duration) -> (r: Self)
        ensures
            r.wrapped() == inner,
            r.cap() == max_delay,
    {
        Self { inner, max_delay }
    }

    /// Borrow the wrapped policy.
    pub fn inner(&self) -> (r: &P)
        ensures
            *r == self.wrapped(),
    {
        &self.inner
    }

    /// Consume the wrapper and return the inner policy.
    pub fn into_inner(self) -> (r: P)
        ensures
            r == self.wrapped(),
    {
        self.inner
    }
}

impl<P: BackoffPolicy> BackoffPolicy for WithMaxDelay<P> {
    open spec fn advances(&self, post: &Self, delay: Option<Duration>) -> bool {
        &&& post.cap() == self.cap()
        &&& match delay {
            Some(d) => exists|uncapped: Duration|
                #![trigger time::shorter_of(uncapped, self.cap())]
                P::advances(&self.wrapped(), &post.wrapped(), Some(uncapped)) && d
                    == time::shorter_of(uncapped, self.cap()),
            None => P::advances(&self.wrapped(), &post.wrapped(), None),
        }
    }

    open spec fn rewinds(&self, post: &Self) -> bool {
        &&& P::rewinds(&self.wrapped(), &post.wrapped())
        &&& post.cap() == self.cap()
    }

    fn next_delay(&mut self) -> (delay: Option<Duration>) {
        match self.inner.next_delay() {
            Some(d) => {
                let delay = time::shorter(d, self.max_delay);
                assert(delay == time::shorter_of(d, old(self).cap()));
                Some(delay)
            },
            None => None,
        }
    }

    fn reset(&mut self) {
        self.inner.reset();
    }
}

/// Stops retrying once a time budget has elapsed.
///
/// On the first call to `next_delay`, the wrapper snapshots the current instant
/// from the injected [`Clock`]. Once `max_elapsed` has passed since that
/// snapshot, it returns `None`.
#[derive(Debug, Clone, Copy)]
pub struct MaxElapsedTime<P, C: Clock> {
    inner: P,
    clock: C,
    max_elapsed: Duration,
    started_at: Option<C::Instant>,
}

impl<P, C: Clock> MaxElapsedTime<P, C> {
    /// The wrapped policy.
    pub closed spec fn wrapped(&self) -> P {
        self.inner
    }

    /// The clock that is asked.
    pub closed spec fn clock(&self) -> C {
        self.clock
    }

    /// The time budget.
    pub closed spec fn budget(&self) -> Duration {
        self.max_elapsed
    }

    /// The instant of the first call, once there was one.
    pub closed spec fn started(&self) -> Option<C::Instant> {
        self.started_at
    }

    /// Wrap `inner`, giving up after `max_elapsed` measured by `clock`.
    pub fn new(inner: P, clock: C, max_elapsed: Duration) -> (r: Self)
        ensures
            r.wrapped() == inner,
            r.clock() == clock,
            r.budget() == max_elapsed,
            r.started() is None,
    {
        Self { inner, clock, max_elapsed, started_at: None }
    }

    /// Borrow the wrapped policy.
    pub fn inner(&self) -> (r: &P)
        ensures
            *r == self.wrapped(),
    {
        &self.inner
    }

    /// Consume the wrapper and return the inner policy.
    pub fn into_inner(self) -> (r: P)
        ensures
            r == self.wrapped(),
    {
        self.inner
    }
}

impl<P: BackoffPolicy, C: Clock> MaxElapsedTime<P, C> {
    /// The instant that elapsed time is counted from at `now`.
    pub open spec fn start_at(&self, now: C::Instant) -> C::Instant {
        match self.started() {
            Some(start) => start,
            None => now,
        }
    }

    /// Whether a call at the instant `now`, with `elapsed` gone since the
    /// start, may return `delay` and leave the policy as `post`.
    pub open spec fn advances_at(
        &self,
        post: &Self,
        delay: Option<Duration>,
        now: C::Instant,
        elapsed: Duration,
    ) -> bool {
        &&& self.clock().measures(self.start_at(now), now, elapsed)
        &&& post.clock() == self.clock()
        &&& post.budget() == self.budget()
        &&& post.started() == Some(self.start_at(now))
        &&& if time::nanos(elapsed) >= time::nanos(self.budget()) {
            delay is None && post.wrapped() == self.wrapped()
        } else {
            P::advances(&self.wrapped(), &post.wrapped(), delay)
        }
    }

    /// The next delay at a given instant.
    pub fn next_delay_at(&mut self, now: C::Instant) -> (delay: Option<Duration>)
        ensures
            exists|elapsed: Duration| #[trigger]
                old(self).advances_at(&*final(self), delay, now, elapsed),
    {
        let started_at = match self.started_at {
            Some(start) => start,
            None => now,
        };
        self.started_at = Some(started_at);
        let elapsed = self.clock.duration_since(started_at, now);
        if time::at_least(elapsed, self.max_elapsed) {
            assert(old(self).advances_at(&*self, None, now, elapsed));
            return None;
        }
        let delay = self.inner.next_delay();
        assert(old(self).advances_at(&*self, delay, now, elapsed));
        delay
    }
}

impl<P: BackoffPolicy, C: Clock> BackoffPolicy for MaxElapsedTime<P, C> {
    open spec fn advances(&self, post: &Self, delay: Option<Duration>) -> bool {
        exists|now: C::Instant, elapsed: Duration|
            self.clock().reads(now) && #[trigger] self.advances_at(post, delay, now, elapsed)
    }

    open spec fn rewinds(&self, post: &Self) -> bool {
        &&& P::rewinds(&self.wrapped(), &post.wrapped())
        &&& post.clock() == self.clock()
        &&& post.budget() == self.budget()
        &&& post.started() is None
    }

    fn next_delay(&mut self) -> (delay: Option<Duration>) {
        let now = self.clock.now();
        self.next_delay_at(now)
    }

    fn reset(&mut self) {
        self.started_at = None;
        self.inner.reset();
    }
}

/// Ergonomic combinators for any [`BackoffPolicy`].
///
/// Implemented for every policy, so caps can be layered fluently.
pub trait PolicyExt: BackoffPolicy + Sized {
    /// Cap the number of retries to `max`. See [`MaxAttempts`].
    #[must_use]
    fn max_attempts(self, max: u32) -> (r: MaxAttempts<Self>)
        ensures
            r.wrapped() == self,
            r.limit() == max,
            r.used() == 0,
    {
        MaxAttempts::new(self, max)
    }

    /// Clamp every produced delay to at most `max_delay`. See [`WithMaxDelay`].
    #[must_use]
    fn with_max_delay(self, max_delay: Duration) -> (r: WithMaxDelay<Self>)
        ensures
            r.wrapped() == self,
            r.cap() == max_delay,
    {
        WithMaxDelay::new(self, max_delay)
    }

    /// Stop retrying after `max_elapsed` measured by `clock`. See
    /// [`MaxElapsedTime`].
    #[must_use]
    fn max_elapsed_time<C: Clock>(self, clock: C, max_elapsed: Duration) -> (r: MaxElapsedTime<
        Self,
        C,
    >)
        ensures
            r.wrapped() == self,
            r.clock() == clock,
            r.budget() == max_elapsed,
            r.started() is None,
    {
        MaxElapsedTime::new(self, clock, max_elapsed)
    }
}

impl<P: BackoffPolicy> PolicyExt for P {

}

} // verus!
