//! Execution drivers.
//!
//! These functions glue a [`BackoffPolicy`] to *your* notion of "do the work"
//! and "wait". They own no I/O of their own.
//!
//! The operation returns a [`ControlFlow`]:
//!
//! * `Break(value)` is terminal: the loop stops and hands `value` back as
//!   `Ok(value)`. Encode both success and fatal errors here.
//! * `Continue(state)` is transient: the operation is retried after a delay. If
//!   the policy gives up, the last `state` is handed back in
//!   [`RetryError::Exhausted`].
use core::ops::ControlFlow;
use core::time::Duration;
use vstd::prelude::*;

use crate::ledger;
use crate::ledger::Ledger;
use crate::policy::BackoffPolicy;

verus! {

/// The reason a retry loop stopped without a terminal [`ControlFlow::Break`].
///
/// The generic parameter `C` is the [`ControlFlow::Continue`] payload type, so
/// the caller always gets back the *last* transient state observed before the
/// policy gave up.
#[derive(Debug, Clone, Copy, PartialEq, Eq)]
pub enum RetryError<C> {
    /// The policy ran out of attempts or of its time budget, or was otherwise
    /// exhausted. Carries the last transient state.
    Exhausted(C),
}

impl<C> RetryError<C> {
    /// The last transient state.
    pub open spec fn state(&self) -> C {
        match *self {
            RetryError::Exhausted(c) => c,
        }
    }

    /// Return a reference to the last transient state.
    pub fn last_state(&self) -> (r: &C)
        ensures
            *r == self.state(),
    {
        match self {
            RetryError::Exhausted(c) => c,
        }
    }

    /// Consume the error and return the last transient state.
    pub fn into_last_state(self) -> (r: C)
        ensures
            r == self.state(),
    {
        match self {
            RetryError::Exhausted(c) => c,
        }
    }
}

/// What is said when a policy has run out, given how the last state reads.
pub fn exhausted_message(shown: &str) -> (r: String)
    ensures
        r@ == "retry policy exhausted (last state: "@ + shown@ + ")"@,
{
    let mut r = String::new();
    r.append("retry policy exhausted (last state: ");
    r.append(shown);
    r.append(")");
    assert(r@ == "retry policy exhausted (last state: "@ + shown@ + ")"@);
    r
}

impl<C: core::fmt::Display> RetryError<C> {
    /// The error as a message, with the last state as it displays itself.
    pub fn message(&self) -> (r: String)
        ensures
            exists|shown: String|
                #![trigger shown@]
                vstd::string::to_string_from_display_ensures::<C>(&self.state(), shown) && r@
                    == "retry policy exhausted (last state: "@ + shown@ + ")"@,
    {
        let shown = self.last_state().to_string();
        exhausted_message(shown.as_str())
    }
}

/// What a retry loop does after an attempt.
#[derive(Debug, PartialEq, Eq)]
pub enum Step<B, C> {
    /// Stop, with this result.
    Done(Result<B, RetryError<C>>),
    /// Wait this long, then try again.
    Wait(Duration),
}

/// Decide what follows an attempt.
///
/// A terminal outcome ends the loop and leaves the policy alone. After a
/// transient one the policy is asked for a delay, and the loop ends if there is
/// none.
pub fn retry_step<P: BackoffPolicy, B, C>(policy: &mut P, outcome: ControlFlow<B, C>) -> (r: Step<
    B,
    C,
>)
    ensures
        match outcome {
            ControlFlow::Break(value) => r == Step::<B, C>::Done(Ok(value)) && *final(policy)
                == *old(policy),
            ControlFlow::Continue(state) => match r {
                Step::Wait(delay) => P::advances(&*old(policy), &*final(policy), Some(delay)),
                Step::Done(result) => {
                    &&& result == Err::<B, RetryError<C>>(RetryError::Exhausted(state))
                    &&& P::advances(&*old(policy), &*final(policy), None)
                },
            },
        },
{
    match outcome {
        ControlFlow::Break(value) => Step::Done(Ok(value)),
        ControlFlow::Continue(state) => match policy.next_delay() {
            Some(delay) => Step::Wait(delay),
            None => Step::Done(Err(RetryError::Exhausted(state))),
        },
    }
}

/// What a retry loop drives: something to attempt, and a way to wait.
///
/// Its two relations say what an attempt and a wait may do to it, so that what
/// holds of a loop can be told from one state of the host to the next.
pub trait Host<B, C> {
    /// Whether it may be driven.
    open spec fn ready(&self) -> bool {
        true
    }

    /// Whether an attempt may come out as `outcome` and leave the host as
    /// `post`. A host that does not say may do anything.
    open spec fn attempts(&self, post: &Self, outcome: ControlFlow<B, C>) -> bool {
        true
    }

    /// Whether a wait of `delay` may leave the host as `post`. A host that does
    /// not say may do anything.
    open spec fn sleeps(&self, post: &Self, delay: Duration) -> bool {
        true
    }

    /// Attempt the work once.
    fn attempt(&mut self) -> (outcome: ControlFlow<B, C>)
        requires
            old(self).ready(),
        ensures
            Self::attempts(&*old(self), &*final(self), outcome),
            final(self).ready(),
    ;

    /// Wait once, for `delay`.
    fn sleep(&mut self, delay: Duration)
        requires
            old(self).ready(),
        ensures
            Self::sleeps(&*old(self), &*final(self), delay),
            final(self).ready(),
    ;
}

/// A run of retries of a host: in each round one failed attempt, one delay of
/// the policy, and one wait of that length. `hosts` are the states of the host
/// before each attempt, `tried` those after each failed one.
pub open spec fn is_host_run<P, H, B, C>(
    hosts: Seq<H>,
    tried: Seq<H>,
    policies: Seq<P>,
    failures: Seq<C>,
    delays: Seq<Duration>,
) -> bool where P: BackoffPolicy, H: Host<B, C> {
    &&& hosts.len() == delays.len() + 1
    &&& tried.len() == delays.len()
    &&& policies.len() == delays.len() + 1
    &&& failures.len() == delays.len()
    &&& forall|i: int|
        0 <= i < delays.len() ==> {
            &&& H::attempts(
                &hosts[i],
                &tried[i],
                ControlFlow::<B, C>::Continue(#[trigger] failures[i]),
            )
            &&& P::advances(&policies[i], &policies[i + 1], Some(delays[i]))
            &&& H::sleeps(&tried[i], &hosts[i + 1], delays[i])
        }
}

/// How a loop leaves its policy after a run: as the last attempt found it; or,
/// where it has given up, asked once more and out of delays. Where the retries
/// can no longer be counted, the policy is not asked again either.
pub open spec fn leaves<P: BackoffPolicy>(policies: Seq<P>, post: P, given_up: bool) -> bool {
    if given_up && policies.len() <= u128::MAX {
        P::advances(&policies.last(), &post, None)
    } else {
        post == policies.last()
    }
}

/// What an attempt comes out as when it ends a loop with `result`.
pub open spec fn last_outcome<B, C>(result: Result<B, RetryError<C>>) -> ControlFlow<B, C> {
    match result {
        Ok(value) => ControlFlow::Break(value),
        Err(error) => ControlFlow::Continue(error.state()),
    }
}

/// How a loop over a host may end after a run: with one last attempt, from the
/// state that the run has led to. Its value, or its transient state, is the
/// result.
pub open spec fn host_ends<P, H, B, C>(
    hosts: Seq<H>,
    host_post: H,
    policies: Seq<P>,
    post: P,
    result: Result<B, RetryError<C>>,
) -> bool where P: BackoffPolicy, H: Host<B, C> {
    &&& H::attempts(&hosts.last(), &host_post, last_outcome(result))
    &&& leaves(policies, post, result is Err)
}

/// Drive a host to completion, backing off between tries.
///
/// The loop attempts the work. On `Break(value)` it returns `Ok(value)`; on
/// `Continue(state)` it asks `policy` for the next delay. If there is one, it
/// lets the host sleep for it and tries again, otherwise it returns
/// `Err(RetryError::Exhausted(state))`.
///
/// The policy is left as the last attempt found it: where it has run out, after
/// the call that gave no delay. It is not reset.
///
/// Retries are counted in a `u128`. An operation that still fails after
/// `u128::MAX` retries is given up on like one whose policy has run out.
pub fn retry_host<P, H, B, C>(policy: &mut P, host: &mut H) -> (r: Result<B, RetryError<C>>) where
    P: BackoffPolicy,
    H: Host<B, C>,

    requires
        old(host).ready(),
    ensures
        exists|
            hosts: Seq<H>,
            tried: Seq<H>,
            policies: Seq<P>,
            failures: Seq<C>,
            delays: Seq<Duration>,
        | #[trigger]
            is_host_run::<P, H, B, C>(hosts, tried, policies, failures, delays) && hosts[0] == *old(
                host,
            ) && policies[0] == *old(policy) && host_ends(
                hosts,
                *final(host),
                policies,
                *final(policy),
                r,
            ),
        final(host).ready(),
{
    let ghost mut hosts: Seq<H> = seq![*host];
    let ghost mut tried: Seq<H> = seq![];
    let ghost mut policies: Seq<P> = seq![*policy];
    let ghost mut failures: Seq<C> = seq![];
    let ghost mut delays: Seq<Duration> = seq![];
    let mut retries: u128 = 0;
    while retries < u128::MAX
        invariant
            host.ready(),
            is_host_run::<P, H, B, C>(hosts, tried, policies, failures, delays),
            hosts[0] == *old(host),
            hosts.last() == *host,
            policies[0] == *old(policy),
            policies.last() == *policy,
            delays.len() == retries,
        decreases u128::MAX - retries,
    {
        let outcome = host.attempt();
        let ghost seen = outcome;
        let ghost after = *host;
        match retry_step(policy, outcome) {
            Step::Done(result) => {
                assert(host_ends(hosts, *host, policies, *policy, result));
                return result;
            },
            Step::Wait(delay) => {
                host.sleep(delay);
                proof {
                    let state = match seen {
                        ControlFlow::Continue(c) => c,
                        ControlFlow::Break(_) => arbitrary(),
                    };
                    let (h, t, p, f, d) = (hosts, tried, policies, failures, delays);
                    hosts = h.push(*host);
                    tried = t.push(after);
                    policies = p.push(*policy);
                    failures = f.push(state);
                    delays = d.push(delay);
                    assert forall|i: int| 0 <= i < delays.len() implies {
                        &&& H::attempts(
                            &hosts[i],
                            &tried[i],
                            ControlFlow::<B, C>::Continue(#[trigger] failures[i]),
                        )
                        &&& P::advances(&policies[i], &policies[i + 1], Some(delays[i]))
                        &&& H::sleeps(&tried[i], &hosts[i + 1], delays[i])
                    } by {
                        if i < d.len() {
                            assert(failures[i] == f[i]);
                        }
                    }
                }
            },
        }
        retries = retries + 1;
    }
    match host.attempt() {
        ControlFlow::Break(value) => Ok(value),
        ControlFlow::Continue(state) => Err(RetryError::Exhausted(state)),
    }
}

/// An operation and a sleep as a host, with an account of the calls of each.
pub struct Closures<Op, Sleep, B, C> {
    operation: Ledger<Op, ControlFlow<B, C>>,
    sleep: Ledger<Sleep, Duration>,
    closed: Ghost<bool>,
}

impl<Op, Sleep, B, C> Closures<Op, Sleep, B, C> {
    /// The operation, and its outcomes so far.
    pub closed spec fn operation(&self) -> Ledger<Op, ControlFlow<B, C>> {
        self.operation
    }

    /// The sleep, and what it was called with so far.
    pub closed spec fn pause(&self) -> Ledger<Sleep, Duration> {
        self.sleep
    }

    /// Whether neither is called any more.
    pub closed spec fn closed(&self) -> bool {
        self.closed@
    }

    /// Whether these are `operation` and `sleep`, neither of them called yet.
    pub open spec fn fresh(&self, operation: Op, sleep: Sleep) -> bool {
        &&& self.operation().callee() == operation
        &&& self.operation().turns() == 0
        &&& self.operation().entries() == Seq::<ControlFlow<B, C>>::empty()
        &&& self.pause().callee() == sleep
        &&& self.pause().turns() == 0
        &&& self.pause().entries() == Seq::<Duration>::empty()
        &&& !self.closed()
    }

    /// Whether these are closures whose account was closed on `last`.
    pub open spec fn closes(&self, last: &Self) -> bool {
        &&& self.operation() == last.operation()
        &&& self.pause() == last.pause()
        &&& self.closed()
    }

    /// Two closures that were not called yet.
    pub fn new(operation: Op, sleep: Sleep) -> (r: Self)
        ensures
            r.fresh(operation, sleep),
    {
        Self { operation: Ledger::new(operation), sleep: Ledger::new(sleep), closed: Ghost(false) }
    }

    /// Close the account.
    fn close(&mut self)
        ensures
            final(self).closes(&*old(self)),
    {
        self.closed = Ghost(true);
    }
}

impl<B, C, Op, Sleep> Host<B, C> for Closures<Op, Sleep, B, C> where
    Op: FnMut() -> ControlFlow<B, C>,
    Sleep: FnMut(Duration),
 {
    open spec fn ready(&self) -> bool {
        &&& !self.closed()
        &&& self.operation().callee().requires(())
        &&& forall|delay: Duration| #[trigger] self.pause().callee().requires((delay,))
    }

    open spec fn attempts(&self, post: &Self, outcome: ControlFlow<B, C>) -> bool {
        &&& self.operation().callee().ensures((), outcome)
        &&& post.operation().callee() == self.operation().callee()
        &&& post.operation().turns() == self.operation().turns() + 1
        &&& post.operation().entries() == self.operation().entries().push(outcome)
        &&& post.pause() == self.pause()
        &&& post.closed() == self.closed()
    }

    open spec fn sleeps(&self, post: &Self, delay: Duration) -> bool {
        &&& self.pause().callee().ensures((delay,), ())
        &&& post.pause().callee() == self.pause().callee()
        &&& post.pause().turns() == self.pause().turns() + 1
        &&& post.pause().entries() == self.pause().entries().push(delay)
        &&& post.operation() == self.operation()
        &&& post.closed() == self.closed()
    }

    fn attempt(&mut self) -> (outcome: ControlFlow<B, C>) {
        let (outcome, receipt) = ledger::attempt(self.operation.turn());
        self.operation.enter(receipt);
        outcome
    }

    fn sleep(&mut self, delay: Duration) {
        assert(self.pause().callee().requires((delay,)));
        let receipt = self.sleep.turn().sleep(delay);
        self.sleep.enter(receipt);
    }
}

/// A run of retries: the policies from one attempt to the next, the transient
/// state of each failed attempt and the delay slept after it.
pub open spec fn is_run<P, B, C, Op, Sleep>(
    operation: Op,
    sleep: Sleep,
    policies: Seq<P>,
    failures: Seq<C>,
    delays: Seq<Duration>,
) -> bool where
    P: BackoffPolicy,
    Op: FnMut() -> ControlFlow<B, C>,
    Sleep: FnMut(Duration),
 {
    &&& policies.len() == delays.len() + 1
    &&& failures.len() == delays.len()
    &&& forall|i: int|
        0 <= i < delays.len() ==> {
            &&& operation.ensures((), ControlFlow::<B, C>::Continue(#[trigger] failures[i]))
            &&& P::advances(&policies[i], &policies[i + 1], Some(delays[i]))
            &&& sleep.ensures((delays[i],), ())
        }
}

/// How a loop may end after a run, and how it leaves the policy: with the value
/// of a terminal attempt, or with the state of a transient one.
pub open spec fn ends<P, B, C, Op>(
    operation: Op,
    policies: Seq<P>,
    post: P,
    result: Result<B, RetryError<C>>,
) -> bool where P: BackoffPolicy, Op: FnMut() -> ControlFlow<B, C> {
    &&& operation.ensures((), last_outcome(result))
    &&& leaves(policies, post, result is Err)
}

/// Whether a loop calls its two closures exactly as a run has it: the operation
/// once per attempt, the sleep once per delay, with that delay and after the
/// attempt that it follows. `last` is the account that it ends with.
pub open spec fn calls_in_turn<P, B, C, Op, Sleep>(
    first: Closures<Op, Sleep, B, C>,
    last: Closures<Op, Sleep, B, C>,
    policies: Seq<P>,
    failures: Seq<C>,
    delays: Seq<Duration>,
    post: P,
    result: Result<B, RetryError<C>>,
) -> bool where
    P: BackoffPolicy,
    Op: FnMut() -> ControlFlow<B, C>,
    Sleep: FnMut(Duration),
 {
    exists|hosts: Seq<Closures<Op, Sleep, B, C>>, tried: Seq<Closures<Op, Sleep, B, C>>|
        #![trigger is_host_run::<P, Closures<Op, Sleep, B, C>, B, C>(hosts, tried, policies, failures, delays)]
        is_host_run::<P, Closures<Op, Sleep, B, C>, B, C>(hosts, tried, policies, failures, delays)
            && hosts[0] == first && host_ends(hosts, last, policies, post, result)
}

/// Drive an operation to completion synchronously, backing off between tries.
///
/// The loop runs `operation`. On `Break(value)` it returns `Ok(value)`; on
/// `Continue(state)` it asks `policy` for the next delay. If there is one, it
/// calls `sleep` with it and tries again, otherwise it returns
/// `Err(RetryError::Exhausted(state))`.
///
/// `sleep` is *yours*: it can block the thread, advance a virtual clock, or do
/// nothing at all.
///
/// The operation is called once per attempt and the sleep once per delay; the
/// account of [`retry_closures`], which runs the loop, says so. The policy and
/// the closures are let go as the loop has left them: a borrowed policy is not
/// reset. What the closures change outside cannot be told of.
///
/// Retries are counted in a `u128`. An operation that still fails after
/// `u128::MAX` retries is given up on like one whose policy has run out.
pub fn retry_sync<P, B, C, Op, Sleep>(policy: P, operation: Op, sleep: Sleep) -> (r: Result<
    B,
    RetryError<C>,
>) where P: BackoffPolicy, Op: FnMut() -> ControlFlow<B, C>, Sleep: FnMut(Duration)
    requires
        operation.requires(()),
        forall|delay: Duration| #[trigger] sleep.requires((delay,)),
    ensures
        exists|
            policies: Seq<P>,
            failures: Seq<C>,
            delays: Seq<Duration>,
            post: P,
            first: Closures<Op, Sleep, B, C>,
            last: Closures<Op, Sleep, B, C>,
            closed: Closures<Op, Sleep, B, C>,
        |
            #![trigger calls_in_turn(first, last, policies, failures, delays, post, r), closed.closes(&last)]
            calls_in_turn(first, last, policies, failures, delays, post, r) && first.fresh(
                operation,
                sleep,
            ) && closed.closes(&last) && has_resolved(closed) && policies[0] == policy && is_run::<P, B, C, Op, Sleep>(
                operation,
                sleep,
                policies,
                failures,
                delays,
            ) && ends(operation, policies, post, r) && has_resolved(post),
{
    let mut current = policy;
    retry_with(&mut current, operation, sleep)
}

/// Drive an operation like [`retry_sync`], over a policy that the caller keeps.
///
/// The policy is left as the last attempt found it: where it has run out, after
/// the call that gave no delay. It is not reset.
pub fn retry_with<P, B, C, Op, Sleep>(policy: &mut P, operation: Op, sleep: Sleep) -> (r: Result<
    B,
    RetryError<C>,
>) where P: BackoffPolicy, Op: FnMut() -> ControlFlow<B, C>, Sleep: FnMut(Duration)
    requires
        operation.requires(()),
        forall|delay: Duration| #[trigger] sleep.requires((delay,)),
    ensures
        exists|
            policies: Seq<P>,
            failures: Seq<C>,
            delays: Seq<Duration>,
            first: Closures<Op, Sleep, B, C>,
            last: Closures<Op, Sleep, B, C>,
            closed: Closures<Op, Sleep, B, C>,
        |
            #![trigger calls_in_turn(first, last, policies, failures, delays, *final(policy), r), closed.closes(&last)]
            calls_in_turn(first, last, policies, failures, delays, *final(policy), r) && first.fresh(
                operation,
                sleep,
            ) && closed.closes(&last) && has_resolved(closed) && policies[0] == *old(policy) && is_run::<P, B, C, Op, Sleep>(
                operation,
                sleep,
                policies,
                failures,
                delays,
            ) && ends(operation, policies, *final(policy), r),
{
    let mut closures = Closures::new(operation, sleep);
    let ghost first = closures;
    let r = retry_closures(policy, &mut closures);
    proof {
        let (policies, failures, delays, last) = choose|
            policies: Seq<P>,
            failures: Seq<C>,
            delays: Seq<Duration>,
            last: Closures<Op, Sleep, B, C>,
        | #[trigger]
            calls_in_turn(first, last, policies, failures, delays, *policy, r) && policies[0]
                == *old(policy) && closures.closes(&last);
        let (hosts, tried) = choose|
            hosts: Seq<Closures<Op, Sleep, B, C>>,
            tried: Seq<Closures<Op, Sleep, B, C>>,
        |
            #![trigger is_host_run::<P, Closures<Op, Sleep, B, C>, B, C>(hosts, tried, policies, failures, delays)]
            is_host_run::<P, Closures<Op, Sleep, B, C>, B, C>(
                hosts,
                tried,
                policies,
                failures,
                delays,
            ) && hosts[0] == first && host_ends(hosts, last, policies, *policy, r);
        assert forall|i: int| 0 <= i < hosts.len() implies (#[trigger] hosts[i]).operation().callee()
            == operation && hosts[i].pause().callee() == sleep by {
            lemma_closures_stay::<P, B, C, Op, Sleep>(hosts, tried, policies, failures, delays, i);
        }
        assert(is_run::<P, B, C, Op, Sleep>(operation, sleep, policies, failures, delays));
        assert(ends(operation, policies, *policy, r));
    }
    r
}

/// Drive two closures like [`retry_with`], with the account of their calls.
///
/// The account tells how often each was called, and with what. It is closed at
/// the end: what it says is then all that was ever called.
pub fn retry_closures<P, B, C, Op, Sleep>(
    policy: &mut P,
    closures: &mut Closures<Op, Sleep, B, C>,
) -> (r: Result<B, RetryError<C>>) where
    P: BackoffPolicy,
    Op: FnMut() -> ControlFlow<B, C>,
    Sleep: FnMut(Duration),

    requires
        old(closures).ready(),
    ensures
        exists|
            policies: Seq<P>,
            failures: Seq<C>,
            delays: Seq<Duration>,
            last: Closures<Op, Sleep, B, C>,
        | #[trigger]
            calls_in_turn(*old(closures), last, policies, failures, delays, *final(policy), r)
                && policies[0] == *old(policy) && final(closures).closes(&last),
{
    let r = retry_host(policy, closures);
    let ghost last = *closures;
    closures.close();
    proof {
        let (hosts, tried, policies, failures, delays) = choose|
            hosts: Seq<Closures<Op, Sleep, B, C>>,
            tried: Seq<Closures<Op, Sleep, B, C>>,
            policies: Seq<P>,
            failures: Seq<C>,
            delays: Seq<Duration>,
        | #[trigger]
            is_host_run::<P, Closures<Op, Sleep, B, C>, B, C>(
                hosts,
                tried,
                policies,
                failures,
                delays,
            ) && hosts[0] == *old(closures) && policies[0] == *old(policy) && host_ends(
                hosts,
                last,
                policies,
                *policy,
                r,
            );
        assert(calls_in_turn(*old(closures), last, policies, failures, delays, *policy, r));
    }
    r
}

/// A loop leaves its closures as they are.
proof fn lemma_closures_stay<P, B, C, Op, Sleep>(
    hosts: Seq<Closures<Op, Sleep, B, C>>,
    tried: Seq<Closures<Op, Sleep, B, C>>,
    policies: Seq<P>,
    failures: Seq<C>,
    delays: Seq<Duration>,
    j: int,
) where P: BackoffPolicy, Op: FnMut() -> ControlFlow<B, C>, Sleep: FnMut(Duration)
    requires
        is_host_run::<P, Closures<Op, Sleep, B, C>, B, C>(hosts, tried, policies, failures, delays),
        0 <= j < hosts.len(),
    ensures
        hosts[j].operation().callee() == hosts[0].operation().callee(),
        hosts[j].pause().callee() == hosts[0].pause().callee(),
    decreases j,
{
    if j > 0 {
        lemma_closures_stay::<P, B, C, Op, Sleep>(hosts, tried, policies, failures, delays, j - 1);
        let failure = failures[j - 1];
    }
}

} // verus!
