//! Support for futures: a waker slot in the manner of `tokio::sync::AtomicWaker`.

use vstd::prelude::*;

use std::task::Waker;

verus! {

/// `std::task::Waker` is an opaque handle that the library stores, hands back, clones and wakes.
#[verifier::external_type_specification]
#[verifier::external_body]
pub struct ExWaker(std::task::Waker);

/// Wakes the task behind `waker` through `std::task::Waker::wake`. The library keeps, as ghost
/// state of `slot`, the record of every waker it hands to `Waker::wake`; this is the one place
/// that extends it. Nothing is claimed of the effect of the wake itself, which happens outside the
/// library.
#[verifier::external_body]
fn wake_task(slot: &mut AtomicWaker, waker: Waker)
    ensures
        final(slot).woken() == old(slot).woken().push(waker),
        final(slot).registered() == old(slot).registered(),
{
    waker.wake();
}

/// A copy of `waker` through `<std::task::Waker as Clone>::clone`. The spec value of a `Waker`
/// stands for the task that it wakes, and the documentation promises that the copy wakes the same
/// task as the waker it was made from: so the copy has the same spec value.
#[verifier::external_body]
fn clone_waker(waker: &Waker) -> (r: Waker)
    ensures
        r == *waker,
{
    waker.clone()
}

/// What registering does, depending on whether the slot could be had.
#[derive(Debug, Clone, Copy, PartialEq, Eq, Structural)]
pub enum RegisterAction {
    /// Store the waker in the slot.
    Store,
    /// Another thread holds the slot: wake the registering task at once, so that it polls again,
    /// and yield to the other thread.
    WakeAndYield,
}

/// A slot holding the waker of the task that last registered interest.
///
/// The slot is owned by the caller, so registering never finds it locked; a shared version that
/// wakes the registering task at once when the slot is busy is built around it, outside the
/// verified library.
pub struct AtomicWaker {
    waker: Option<Waker>,
    woken: Ghost<Seq<Waker>>,
}

impl AtomicWaker {
    /// The waker that is registered, if any.
    pub closed spec fn registered(&self) -> Option<Waker> {
        self.waker
    }

    /// Every waker that this slot has handed to `Waker::wake`, in order.
    pub closed spec fn woken(&self) -> Seq<Waker> {
        self.woken@
    }

    /// Create a new instance of `AtomicWaker`, with no waker registered and none woken.
    pub fn new() -> (w: AtomicWaker)
        ensures
            w.registered() is None,
            w.woken() == Seq::<Waker>::empty(),
    {
        AtomicWaker { waker: None, woken: Ghost(Seq::empty()) }
    }

    /// `after` is `before` with `w` registered in place of any earlier waker, and nothing woken:
    /// an earlier waker is dropped without being woken.
    pub open spec fn register_post(before: AtomicWaker, w: Waker, after: AtomicWaker) -> bool {
        after.registered() == Some(w) && after.woken() == before.woken()
    }

    /// `taken` is what `before` held, `after` is empty, and nothing was woken.
    pub open spec fn take_post(before: AtomicWaker, taken: Option<Waker>, after: AtomicWaker) -> bool {
        &&& taken == before.registered()
        &&& after.registered() is None
        &&& after.woken() == before.woken()
    }

    /// `after` is `before` with its registered waker, if any, woken exactly once and the slot
    /// emptied.
    pub open spec fn wake_post(before: AtomicWaker, after: AtomicWaker) -> bool {
        &&& after.registered() is None
        &&& after.woken() == match before.registered() {
            Some(w) => before.woken().push(w),
            None => before.woken(),
        }
    }

    /// What a registering thread does: store its waker when it could take the slot, and
    /// otherwise wake its task at once and yield, so that the registration is not lost.
    pub fn register_action(slot_taken: bool) -> (a: RegisterAction)
        ensures
            a == (if slot_taken { RegisterAction::Store } else { RegisterAction::WakeAndYield }),
    {
        if slot_taken {
            RegisterAction::Store
        } else {
            RegisterAction::WakeAndYield
        }
    }

    /// Registers the current task to be notified on calls to `wake`; it replaces any waker that
    /// was registered before.
    pub fn register(&mut self, waker: Waker)
        ensures
            AtomicWaker::register_post(*old(self), waker, *final(self)),
            final(self).registered() == Some(waker),
            final(self).woken() == old(self).woken(),
    {
        self.waker = Some(waker);
    }

    /// Registers a copy of `waker` without consuming it.
    pub fn register_by_ref(&mut self, waker: &Waker)
        ensures
            AtomicWaker::register_post(*old(self), *waker, *final(self)),
            final(self).registered() == Some(*waker),
            final(self).woken() == old(self).woken(),
    {
        self.register(clone_waker(waker));
    }

    /// Notifies the task that last called `register`, and empties the slot.
    pub fn wake(&mut self)
        ensures
            AtomicWaker::wake_post(*old(self), *final(self)),
            final(self).registered() is None,
            old(self).registered() matches Some(w) ==> final(self).woken() == old(self).woken().push(w),
            old(self).registered() is None ==> final(self).woken() == old(self).woken(),
    {
        if let Some(waker) = self.take_waker() {
            wake_task(self, waker);
        }
    }

    /// Takes the registered waker out of the slot, leaving it empty, with the intention that the
    /// caller will wake the task later.
    pub fn take_waker(&mut self) -> (r: Option<Waker>)
        ensures
            AtomicWaker::take_post(*old(self), r, *final(self)),
            r == old(self).registered(),
            final(self).registered() is None,
            final(self).woken() == old(self).woken(),
    {
        self.waker.take()
    }
}

impl Default for AtomicWaker {
    fn default() -> (w: Self)
        ensures
            w.registered() is None,
            w.woken() == Seq::<Waker>::empty(),
    {
        AtomicWaker::new()
    }
}

/// What a `take_waker` hands back is the waker of the last `register` before it, the slot is
/// empty after it, and neither call wakes anything.
pub proof fn lemma_take_after_register(
    s0: AtomicWaker,
    w: Waker,
    s1: AtomicWaker,
    taken: Option<Waker>,
    s2: AtomicWaker,
)
    requires
        AtomicWaker::register_post(s0, w, s1),
        AtomicWaker::take_post(s1, taken, s2),
    ensures
        taken == Some(w),
        s2.registered() is None,
        s2.woken() == s0.woken(),
{
}

/// A `wake` after a `register` wakes exactly the registered waker, once; a second `wake` wakes
/// nothing more.
pub proof fn lemma_wake_after_register(s0: AtomicWaker, w: Waker, s1: AtomicWaker, s2: AtomicWaker, s3: AtomicWaker)
    requires
        AtomicWaker::register_post(s0, w, s1),
        AtomicWaker::wake_post(s1, s2),
        AtomicWaker::wake_post(s2, s3),
    ensures
        s2.woken() == s0.woken().push(w),
        s3.woken() == s0.woken().push(w),
        s3.registered() is None,
{
}

} // verus!
