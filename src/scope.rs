use vstd::prelude::*;

use crate::error::SignalUpdatingError;
use crate::raw::{cancelled, SignalState, ID_LIMIT};
use crate::signal::Signal;

verus! {

/// A subscriber of a cell holding values of type `T`.
pub trait Observer<T>: Sized {
    /// Called with the cell's current value. What the call asks of the cell
    /// through `scope` takes effect when the call returns.
    fn notify(&mut self, value: &T, scope: &mut Scope<Self>);
}

/// A request made from inside a callback.
pub(crate) enum Request<O> {
    Subscribe(u64, O),
    Cancel(u64),
    CancelSelf,
}

/// A recorded request as the contracts see it, without the observer.
pub enum Requested {
    Subscribe(u64),
    Cancel(u64),
    /// The running callback ends its own subscription.
    CancelSelf,
}

spec fn requested_of<O>(r: Request<O>) -> Requested {
    match r {
        Request::Subscribe(id, _) => Requested::Subscribe(id),
        Request::Cancel(id) => Requested::Cancel(id),
        Request::CancelSelf => Requested::CancelSelf,
    }
}

/// What a running callback can do to the cell that called it. The cell is
/// busy for the whole call, so every write is refused; subscriptions and
/// cancellations are recorded and applied when the callback returns.
pub struct Scope<O> {
    pub(crate) state: SignalState,
    pub(crate) current: u64,
    pub(crate) next_id: u64,
    pub(crate) requests: Vec<Request<O>>,
}

impl<O> Scope<O> {
    /// The identifier that the next subscription made here will receive.
    pub closed spec fn next_id(&self) -> u64 {
        self.next_id
    }

    /// What the running callback has asked for so far, in order.
    pub closed spec fn requested(&self) -> Seq<Requested> {
        self.requests@.map_values(|r: Request<O>| requested_of(r))
    }

    /// The identifier of the running callback.
    pub closed spec fn current(&self) -> u64 {
        self.current
    }

    /// Whether the call is part of a notification pass (else it is the
    /// first call of a new subscriber).
    pub closed spec fn notifying(&self) -> bool {
        self.state == SignalState::Mutating
    }

    pub(crate) fn new(state: SignalState, current: u64, next_id: u64) -> (r: Self)
        ensures
            r.state == state,
            r.current == current,
            r.next_id == next_id,
            r.requested() == Seq::<Requested>::empty(),
    {
        let r = Scope { state, current, next_id, requests: Vec::new() };
        assert(r.requested() =~= Seq::<Requested>::empty());
        r
    }

    pub fn is_notifying(&self) -> (r: bool)
        ensures
            r == self.notifying(),
    {
        self.state == SignalState::Mutating
    }

    /// The identifier of the running callback's own subscription.
    pub fn current_id(&self) -> (r: u64)
        ensures
            r == self.current(),
    {
        self.current
    }

    /// Subscribes `observer` to the cell. During a notification pass it is
    /// not called at once, but it is reached by the same pass; otherwise it is
    /// called with the current value when the running callback returns.
    pub fn subscribe(&mut self, observer: O) -> (r: Unsubscriber)
        ensures
            old(self).next_id() < ID_LIMIT ==> r.target() == Some(old(self).next_id())
                && final(self).next_id() == old(self).next_id() + 1 && final(self).requested()
                == old(self).requested().push(Requested::Subscribe(old(self).next_id())),
            old(self).next_id() >= ID_LIMIT ==> r.target() is None && final(self).next_id()
                == old(self).next_id() && final(self).requested() == old(self).requested(),
            final(self).current() == old(self).current(),
            final(self).notifying() == old(self).notifying(),
    {
        if self.next_id < ID_LIMIT {
            let id = self.next_id;
            self.next_id = id + 1;
            self.requests.push(Request::Subscribe(id, observer));
            assert(self.requested() =~= old(self).requested().push(Requested::Subscribe(id)));
            Unsubscriber::new(id)
        } else {
            Unsubscriber::inert()
        }
    }

    /// Cancels the subscription behind `unsubscriber`; it then has no effect.
    pub fn unsubscribe(&mut self, unsubscriber: &mut Unsubscriber)
        ensures
            final(unsubscriber).target() is None,
            final(self).requested() == match old(unsubscriber).target() {
                Some(id) => old(self).requested().push(Requested::Cancel(id)),
                None => old(self).requested(),
            },
            final(self).next_id() == old(self).next_id(),
            final(self).current() == old(self).current(),
            final(self).notifying() == old(self).notifying(),
    {
        if let Some(id) = unsubscriber.take_target() {
            self.requests.push(Request::Cancel(id));
            assert(self.requested() =~= old(self).requested().push(Requested::Cancel(id)));
        }
    }

    /// Cancels the running callback's own subscription.
    pub fn unsubscribe_self(&mut self)
        ensures
            final(self).requested() == old(self).requested().push(Requested::CancelSelf),
            final(self).next_id() == old(self).next_id(),
            final(self).current() == old(self).current(),
            final(self).notifying() == old(self).notifying(),
    {
        self.requests.push(Request::CancelSelf);
        assert(self.requested() =~= old(self).requested().push(Requested::CancelSelf));
    }

    /// A change in place from inside a callback: always refused, the cell is
    /// busy; `f` is not called.
    pub fn try_mutate<T, F: FnOnce(&mut T)>(&self, f: F) -> (r: Result<(), SignalUpdatingError>)
        where
            O: Observer<T>,
        ensures
            r == Err::<(), SignalUpdatingError>(SignalUpdatingError),
    {
        let _refused = f;
        Err(SignalUpdatingError)
    }

    /// A write from inside a callback: always refused, the cell is busy.
    pub fn try_set<T>(&self, value: T) -> (r: Result<(), SignalUpdatingError>)
        where
            O: Observer<T>,
        ensures
            r == Err::<(), SignalUpdatingError>(SignalUpdatingError),
    {
        let _refused = value;
        Err(SignalUpdatingError)
    }
}

/// The capability to cancel one subscription. Cancelling consumes it: a
/// second cancellation does nothing.
#[derive(Clone)]
pub struct Unsubscriber(Option<u64>);

impl Unsubscriber {
    /// The identifier of the subscription still to cancel, if any.
    pub closed spec fn target(&self) -> Option<u64> {
        self.0
    }

    pub(crate) fn new(id: u64) -> (r: Self)
        ensures
            r.target() == Some(id),
    {
        Unsubscriber(Some(id))
    }

    pub(crate) fn inert() -> (r: Self)
        ensures
            r.target() is None,
    {
        Unsubscriber(None)
    }

    fn take_target(&mut self) -> (r: Option<u64>)
        ensures
            r == old(self).target(),
            final(self).target() is None,
    {
        self.0.take()
    }

    /// Whether cancelling would still do something.
    pub fn has_effect(&self) -> (r: bool)
        ensures
            r == self.target() is Some,
    {
        self.0.is_some()
    }

    /// Same as `has_effect`.
    pub fn needed(&self) -> (r: bool)
        ensures
            r == self.target() is Some,
    {
        self.has_effect()
    }

    /// The identifier of the subscription, while it can still be cancelled.
    pub fn id(&self) -> (r: Option<u64>)
        ensures
            r == self.target(),
    {
        self.0
    }

    /// Cancels the subscription on `signal`, the cell that issued it. Outside
    /// any callback the entry is removed at once.
    pub fn unsubscribe<T, O: Observer<T>>(&mut self, signal: &mut Signal<T, O>)
        requires
            old(signal).wf(),
        ensures
            final(self).target() is None,
            final(signal).wf(),
            final(signal).entries() == match old(self).target() {
                Some(id) => cancelled(old(signal).entries(), id, false),
                None => old(signal).entries(),
            },
            final(signal).value() == old(signal).value(),
            final(signal).next_id() == old(signal).next_id(),
            final(signal).calls() == old(signal).calls(),
            final(signal).seen() == old(signal).seen(),
            final(signal).cancels() == old(signal).cancels(),
            final(signal).events() == old(signal).events(),
    {
        if let Some(id) = self.take_target() {
            signal.cancel(id);
        }
    }

    /// Turns the capability into one that cancels when finished with.
    pub fn droppable(self) -> (r: DropUnsubscriber)
        ensures
            r.0.target() == self.target(),
    {
        DropUnsubscriber(self)
    }
}

/// A capability meant to be cancelled when the scope holding it ends, unless
/// it is first handed back with `take`.
pub struct DropUnsubscriber(pub Unsubscriber);

impl DropUnsubscriber {
    /// Hands back the plain capability; nothing is cancelled.
    pub fn take(self) -> (r: Unsubscriber)
        ensures
            r.target() == self.0.target(),
    {
        self.0
    }

    /// Ends the scope: cancels the subscription on `signal`.
    pub fn finish<T, O: Observer<T>>(self, signal: &mut Signal<T, O>)
        requires
            old(signal).wf(),
        ensures
            final(signal).wf(),
            final(signal).entries() == match self.0.target() {
                Some(id) => cancelled(old(signal).entries(), id, false),
                None => old(signal).entries(),
            },
            final(signal).value() == old(signal).value(),
    {
        let mut inner = self.0;
        inner.unsubscribe(signal);
    }
}

} // verus!
