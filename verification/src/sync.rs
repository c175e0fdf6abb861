//! Synchronization primitives: the decision logic of a one-shot, single-waiter notification.

use vstd::prelude::*;

verus! {

/// What a call of `Notify::wait` or `Notify::wait_resume` tells the waiting thread to do.
#[derive(Debug, Clone, Copy, PartialEq, Eq, Structural)]
pub enum WaitOutcome {
    /// The notification has happened: the wait is over.
    Return,
    /// No notification yet: block until woken, then call `Notify::wait_resume`.
    Block,
}

/// A notification that one thread waits for and another gives.
///
/// At most one thread may wait at a time. Once given, the notification stays: every later wait
/// returns at once. The thread that calls `notify` must then wake the waiting thread; a waiting
/// thread that is woken calls `wait_resume`.
#[derive(Debug)]
pub struct Notify {
    waiter: bool,
    notified: bool,
}

impl Notify {
    /// Whether a thread is waiting.
    pub closed spec fn has_waiter(&self) -> bool {
        self.waiter
    }

    /// Whether the notification has been given.
    pub closed spec fn is_notified(&self) -> bool {
        self.notified
    }

    /// Whether a thread is waiting; a second thread must not start waiting while one is.
    pub fn is_waited_on(&self) -> (b: bool)
        ensures
            b == self.has_waiter(),
    {
        self.waiter
    }

    /// No thread waits and no notification has been given.
    pub fn new() -> (n: Self)
        ensures
            !n.has_waiter(),
            !n.is_notified(),
    {
        Self { waiter: false, notified: false }
    }

    /// `after` is `before` with the notification given.
    pub open spec fn notify_post(before: Notify, after: Notify) -> bool {
        after.is_notified() && after.has_waiter() == before.has_waiter()
    }

    /// The outcome of a wait from `before`: it returns when the notification has been given, and
    /// otherwise leaves a waiter that must block.
    pub open spec fn wait_post(before: Notify, o: WaitOutcome, after: Notify) -> bool {
        &&& after.is_notified() == before.is_notified()
        &&& before.is_notified() ==> o == WaitOutcome::Return && !after.has_waiter()
        &&& !before.is_notified() ==> o == WaitOutcome::Block && after.has_waiter()
    }

    /// Give the notification. The caller then wakes the waiting thread, if any.
    pub fn notify(&mut self)
        ensures
            Notify::notify_post(*old(self), *final(self)),
            final(self).is_notified(),
            final(self).has_waiter() == old(self).has_waiter(),
    {
        self.notified = true;
    }

    /// Start waiting for the notification. Only a single thread may wait at a time.
    pub fn wait(&mut self) -> (o: WaitOutcome)
        requires
            !old(self).has_waiter(),
        ensures
            Notify::wait_post(*old(self), o, *final(self)),
            (o == WaitOutcome::Return) == old(self).is_notified(),
            final(self).is_notified() == old(self).is_notified(),
            final(self).has_waiter() == !old(self).is_notified(),
    {
        self.waiter = true;
        self.wait_resume()
    }

    /// Go on waiting after being woken: the wait is over if the notification has been given.
    pub fn wait_resume(&mut self) -> (o: WaitOutcome)
        requires
            old(self).has_waiter(),
        ensures
            Notify::wait_post(*old(self), o, *final(self)),
            (o == WaitOutcome::Return) == old(self).is_notified(),
            final(self).is_notified() == old(self).is_notified(),
            final(self).has_waiter() == !old(self).is_notified(),
    {
        if self.notified {
            self.waiter = false;
            WaitOutcome::Return
        } else {
            WaitOutcome::Block
        }
    }
}

/// Once given, the notification stays given: a wait that starts after a `notify` returns at once,
/// and so does every later one.
pub proof fn lemma_wait_after_notify_returns(
    n0: Notify,
    n1: Notify,
    o1: WaitOutcome,
    n2: Notify,
    o2: WaitOutcome,
    n3: Notify,
)
    requires
        Notify::notify_post(n0, n1),
        !n1.has_waiter(),
        Notify::wait_post(n1, o1, n2),
        Notify::wait_post(n2, o2, n3),
    ensures
        o1 == WaitOutcome::Return,
        o2 == WaitOutcome::Return,
        n3.is_notified(),
        !n3.has_waiter(),
{
}

/// A call on a `Notify`, with the outcome it returned.
pub enum NotifyCall {
    /// `notify`.
    Notify,
    /// `wait`, and its outcome.
    Wait(WaitOutcome),
    /// `wait_resume`, and its outcome.
    Resume(WaitOutcome),
}

/// `after` is `before` after `call`, as the call's contract states it, with its `requires` met.
pub open spec fn notify_call_post(before: Notify, call: NotifyCall, after: Notify) -> bool {
    match call {
        NotifyCall::Notify => Notify::notify_post(before, after),
        NotifyCall::Wait(o) => !before.has_waiter() && Notify::wait_post(before, o, after),
        NotifyCall::Resume(o) => before.has_waiter() && Notify::wait_post(before, o, after),
    }
}

proof fn lemma_notified_only_after_notify(states: Seq<Notify>, calls: Seq<NotifyCall>, j: int)
    requires
        states.len() == calls.len() + 1,
        !states[0].is_notified(),
        forall|k: int| 0 <= k < calls.len() ==> notify_call_post(#[trigger] states[k], calls[k], states[k + 1]),
        0 <= j < states.len(),
    ensures
        states[j].is_notified() ==> exists|k: int| 0 <= k < j && calls[k] is Notify,
    decreases j,
{
    if j > 0 {
        let k = j - 1;
        lemma_notified_only_after_notify(states, calls, k);
        assert(notify_call_post(states[k], calls[k], states[k + 1]));
        if states[j].is_notified() && !(calls[k] is Notify) {
            assert(states[k].is_notified());
            let k2 = choose|k2: int| 0 <= k2 < k && calls[k2] is Notify;
            assert(0 <= k2 < j && calls[k2] is Notify);
        }
    }
}

/// A wait never returns spuriously: over any sequence of calls on a fresh `Notify`, a `wait` or
/// `wait_resume` that returns `Return` comes after some `notify`.
pub proof fn lemma_no_spurious_return(states: Seq<Notify>, calls: Seq<NotifyCall>, i: int)
    requires
        states.len() == calls.len() + 1,
        !states[0].is_notified(),
        forall|k: int| 0 <= k < calls.len() ==> notify_call_post(#[trigger] states[k], calls[k], states[k + 1]),
        0 <= i < calls.len(),
        calls[i] == NotifyCall::Wait(WaitOutcome::Return) || calls[i] == NotifyCall::Resume(WaitOutcome::Return),
    ensures
        exists|k: int| 0 <= k < i && calls[k] is Notify,
{
    lemma_notified_only_after_notify(states, calls, i);
    assert(notify_call_post(states[i], calls[i], states[i + 1]));
}

} // verus!
