//! Calls of a closure, each made exactly once and written down.
//!
//! The contract of a closure tells nothing of how often it is called. A
//! [`Ledger`] keeps the closure to itself and hands it out for one call at a
//! time: a [`Turn`] is moved into the call that it is good for, and what comes
//! back is a [`Receipt`] for the entry that the call has earned. So the ledger
//! knows how many turns were taken, which no code can exceed, and what was
//! entered, which no code can enter without a call.
use core::ops::ControlFlow;
use core::time::Duration;
use vstd::prelude::*;

verus! {

/// A closure with an account of its calls.
pub struct Ledger<F, T> {
    callee: F,
    turns: Ghost<nat>,
    entries: Ghost<Seq<T>>,
}

/// The right to one call. It is not `Copy`, and the call takes it.
pub struct Turn<G> {
    callee: G,
}

/// What a call leaves behind: the entry that it has earned.
pub struct Receipt<T> {
    entry: Ghost<T>,
}

impl<F, T> Ledger<F, T> {
    /// The closure.
    pub closed spec fn callee(&self) -> F {
        self.callee
    }

    /// How many turns were taken.
    pub closed spec fn turns(&self) -> nat {
        self.turns@
    }

    /// What was entered, in order.
    pub closed spec fn entries(&self) -> Seq<T> {
        self.entries@
    }

    /// A closure that was not called yet.
    pub(crate) fn new(callee: F) -> (r: Self)
        ensures
            r.callee() == callee,
            r.turns() == 0,
            r.entries() == Seq::<T>::empty(),
    {
        Self { callee, turns: Ghost(0), entries: Ghost(Seq::empty()) }
    }

    /// Take a turn.
    pub(crate) fn turn(&mut self) -> (r: Turn<&mut F>)
        ensures
            *r.callee() == old(self).callee(),
            final(self).callee() == *final(r.callee()),
            final(self).turns() == old(self).turns() + 1,
            final(self).entries() == old(self).entries(),
    {
        self.turns = Ghost((self.turns@ + 1) as nat);
        Turn { callee: &mut self.callee }
    }

    /// Enter what a call has earned.
    pub(crate) fn enter(&mut self, receipt: Receipt<T>)
        ensures
            final(self).callee() == old(self).callee(),
            final(self).turns() == old(self).turns(),
            final(self).entries() == old(self).entries().push(receipt.entry()),
    {
        self.entries = Ghost(self.entries@.push(receipt.entry@));
    }
}

impl<G> Turn<G> {
    /// What is called.
    pub closed spec fn callee(&self) -> G {
        self.callee
    }
}

impl<T> Receipt<T> {
    /// The entry.
    pub closed spec fn entry(&self) -> T {
        self.entry@
    }
}

impl<G: FnOnce(Duration)> Turn<G> {
    /// Sleep once.
    pub(crate) fn sleep(self, delay: Duration) -> (r: Receipt<Duration>)
        requires
            self.callee().requires((delay,)),
        ensures
            self.callee().ensures((delay,), ()),
            r.entry() == delay,
    {
        (self.callee)(delay);
        Receipt { entry: Ghost(delay) }
    }
}

/// Attempt once.
pub(crate) fn attempt<B, C, G: FnOnce() -> ControlFlow<B, C>>(turn: Turn<G>) -> (r: (
    ControlFlow<B, C>,
    Receipt<ControlFlow<B, C>>,
))
    requires
        turn.callee().requires(()),
    ensures
        turn.callee().ensures((), r.0),
        r.1.entry() == r.0,
{
    let outcome = (turn.callee)();
    let receipt = Receipt { entry: Ghost(outcome) };
    (outcome, receipt)
}

} // verus!
