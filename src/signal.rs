use vstd::prelude::*;

use crate::error::{SignalUninitError, SignalUpdatingError};
use crate::raw::{all_live, cancelled, has_id, ids_increasing, swept, Entry, RawSignal, SignalState, ID_LIMIT};
use crate::scope::{Observer, Request, Scope, Unsubscriber};

verus! {

/// A cell: a value, the subscribers that watch it, and the state flag that
/// decides what may happen to them at each moment.
pub struct Signal<T, O> {
    value: Option<T>,
    raw: RawSignal<O>,
    calls: Ghost<Seq<u64>>,
    seen: Ghost<Seq<T>>,
    cancels: Ghost<Seq<u64>>,
    events: Ghost<Seq<Event<T>>>,
}

/// One step in the history of a cell: a subscriber called with a value, an
/// entry added to the registry, or a cancellation applied to it.
pub enum Event<T> {
    Call(u64, T),
    Add(u64),
    Drop(u64),
    /// A subscriber's own callback ended its subscription.
    Leave(u64),
}

/// What was appended to `s` since it had length `from`.
pub open spec fn tail<A>(s: Seq<A>, from: int) -> Seq<A> {
    s.subrange(from, s.len() as int)
}

/// The registry `s` after the additions and cancellations of `log`, in
/// order; cancellations make tombstones when `mutating`, else remove.
pub open spec fn replay<T>(s: Seq<Entry>, log: Seq<Event<T>>, mutating: bool) -> Seq<Entry>
    decreases log.len(),
{
    if log.len() == 0 {
        s
    } else {
        let prev = replay(s, log.drop_last(), mutating);
        match log.last() {
            Event::Add(id) => prev.push(Entry { id, deleted: false }),
            Event::Drop(id) => cancelled(prev, id, mutating),
            Event::Leave(id) => cancelled(prev, id, mutating),
            Event::Call(_, _) => prev,
        }
    }
}

/// The identifiers of the calls in `log`, in order.
pub open spec fn call_ids<T>(log: Seq<Event<T>>) -> Seq<u64>
    decreases log.len(),
{
    if log.len() == 0 {
        Seq::empty()
    } else {
        match log.last() {
            Event::Call(id, _) => call_ids(log.drop_last()).push(id),
            _ => call_ids(log.drop_last()),
        }
    }
}

/// The values shown by the calls in `log`, in order.
pub open spec fn call_values<T>(log: Seq<Event<T>>) -> Seq<T>
    decreases log.len(),
{
    if log.len() == 0 {
        Seq::empty()
    } else {
        match log.last() {
            Event::Call(_, v) => call_values(log.drop_last()).push(v),
            _ => call_values(log.drop_last()),
        }
    }
}

/// One more event adds a call to the projections only if it is one.
pub proof fn lemma_call_log_push<T>(log: Seq<Event<T>>, e: Event<T>)
    ensures
        call_ids(log.push(e)) == match e {
            Event::Call(id, _) => call_ids(log).push(id),
            _ => call_ids(log),
        },
        call_values(log.push(e)) == match e {
            Event::Call(_, v) => call_values(log).push(v),
            _ => call_values(log),
        },
{
    assert(log.push(e).drop_last() =~= log);
}

/// The registry holds a live entry for `id`.
pub open spec fn live_in(s: Seq<Entry>, id: u64) -> bool {
    exists|k: int| 0 <= k < s.len() && s[k].id == id && !s[k].deleted
}

/// Every call in `log` went to an entry that was live at that moment, the
/// registry starting as `s`.
pub open spec fn calls_only_live<T>(s: Seq<Entry>, log: Seq<Event<T>>, mutating: bool) -> bool {
    forall|m: int|
        0 <= m < log.len() && (#[trigger] log[m]) is Call ==> live_in(
            replay(s, log.take(m), mutating),
            log[m]->Call_0,
        )
}

/// Replaying one more event is one more step.
pub proof fn lemma_replay_push<T>(s: Seq<Entry>, log: Seq<Event<T>>, e: Event<T>, mutating: bool)
    ensures
        replay(s, log.push(e), mutating) == match e {
            Event::Add(id) => replay(s, log, mutating).push(Entry { id, deleted: false }),
            Event::Drop(id) => cancelled(replay(s, log, mutating), id, mutating),
            Event::Leave(id) => cancelled(replay(s, log, mutating), id, mutating),
            Event::Call(_, _) => replay(s, log, mutating),
        },
{
    assert(log.push(e).drop_last() =~= log);
}

/// Replaying two logs one after the other is replaying their concatenation.
pub proof fn lemma_replay_concat<T>(s: Seq<Entry>, l1: Seq<Event<T>>, l2: Seq<Event<T>>, mutating: bool)
    ensures
        replay(s, l1 + l2, mutating) == replay(replay(s, l1, mutating), l2, mutating),
    decreases l2.len(),
{
    if l2.len() == 0 {
        assert(l1 + l2 =~= l1);
    } else {
        lemma_replay_concat(s, l1, l2.drop_last(), mutating);
        assert((l1 + l2).drop_last() =~= l1 + l2.drop_last());
    }
}

/// The calls of two logs replayed one after the other went to live entries
/// when those of each did.
pub proof fn lemma_calls_only_live_concat<T>(
    s: Seq<Entry>,
    l1: Seq<Event<T>>,
    l2: Seq<Event<T>>,
    mutating: bool,
)
    requires
        calls_only_live(s, l1, mutating),
        calls_only_live(replay(s, l1, mutating), l2, mutating),
    ensures
        calls_only_live(s, l1 + l2, mutating),
{
    let l = l1 + l2;
    assert forall|m: int| 0 <= m < l.len() && (#[trigger] l[m]) is Call implies live_in(
        replay(s, l.take(m), mutating),
        l[m]->Call_0,
    ) by {
        if m < l1.len() {
            assert(l.take(m) =~= l1.take(m));
            assert(l[m] == l1[m]);
        } else {
            let m2 = m - l1.len();
            assert(l.take(m) =~= l1 + l2.take(m2));
            assert(l[m] == l2[m2]);
            lemma_replay_concat(s, l1, l2.take(m2), mutating);
        }
    }
}

/// An entry added by `log` and not cancelled by a later event of it is live
/// once `log` is replayed.
pub proof fn lemma_added_stays_live<T>(s: Seq<Entry>, log: Seq<Event<T>>, m: int, id: u64, mutating: bool)
    requires
        0 <= m < log.len(),
        log[m] == Event::<T>::Add(id),
        forall|j: int|
            m < j < log.len() ==> #[trigger] log[j] != Event::<T>::Drop(id) && log[j]
                != Event::<T>::Leave(id),
    ensures
        live_in(replay(s, log, mutating), id),
    decreases log.len(),
{
    let d = log.drop_last();
    let prev = replay(s, d, mutating);
    if m == log.len() - 1 {
        assert(replay(s, log, mutating)[prev.len() as int] == Entry { id, deleted: false });
    } else {
        assert forall|j: int| m < j < d.len() implies #[trigger] d[j] != Event::<T>::Drop(id) && d[j] != Event::<T>::Leave(id) by {
            assert(d[j] == log[j]);
        }
        lemma_added_stays_live(s, d, m, id, mutating);
        let k = choose|k: int| 0 <= k < prev.len() && prev[k].id == id && !prev[k].deleted;
        let now = replay(s, log, mutating);
        match log.last() {
            Event::Add(x) => {
                assert(now[k] == prev[k]);
            },
            Event::Drop(x) => {
                assert(x != id);
                if has_id(prev, x) {
                    let p = crate::raw::position_of(prev, x);
                    assert(0 <= p < prev.len() && prev[p].id == x);
                    if mutating {
                        assert(now[k] == prev[k]);
                    } else {
                        let k2 = if k < p { k } else { k - 1 };
                        assert(now[k2] == prev[k]);
                    }
                }
            },            Event::Leave(x) => {
                assert(x != id);
                if has_id(prev, x) {
                    let p = crate::raw::position_of(prev, x);
                    assert(0 <= p < prev.len() && prev[p].id == x);
                    if mutating {
                        assert(now[k] == prev[k]);
                    } else {
                        let k2 = if k < p { k } else { k - 1 };
                        assert(now[k2] == prev[k]);
                    }
                }
            },
            Event::Call(_, _) => {},
        }
    }
}

/// Each self-cancellation in `log` was asked by the subscriber of the call
/// just before it: a call of the same identifier, with no other call between.
pub open spec fn leaves_own<T>(log: Seq<Event<T>>) -> bool {
    forall|m: int|
        0 <= m < log.len() && (#[trigger] log[m]) is Leave ==> exists|c: int|
            0 <= c < m && log[c] is Call && log[c]->Call_0 == log[m]->Leave_0 && forall|j: int|
                c < j < m ==> !(#[trigger] log[j] is Call)
}

/// Two logs where each self-cancellation follows its own call make one.
pub proof fn lemma_leaves_own_concat<T>(l1: Seq<Event<T>>, l2: Seq<Event<T>>)
    requires
        leaves_own(l1),
        leaves_own(l2),
    ensures
        leaves_own(l1 + l2),
{
    let l = l1 + l2;
    assert forall|m: int| 0 <= m < l.len() && (#[trigger] l[m]) is Leave implies exists|c: int|
        0 <= c < m && l[c] is Call && l[c]->Call_0 == l[m]->Leave_0 && forall|j: int|
            c < j < m ==> !(#[trigger] l[j] is Call) by {
        if m < l1.len() {
            assert(l[m] == l1[m]);
            let c = choose|c: int|
                0 <= c < m && l1[c] is Call && l1[c]->Call_0 == l1[m]->Leave_0 && forall|j: int|
                    c < j < m ==> !(#[trigger] l1[j] is Call);
            assert(l[c] == l1[c]);
            assert forall|j: int| c < j < m implies !(#[trigger] l[j] is Call) by {
                assert(l[j] == l1[j]);
            }
        } else {
            let m2 = m - l1.len();
            assert(l[m] == l2[m2]);
            let c = choose|c: int|
                0 <= c < m2 && l2[c] is Call && l2[c]->Call_0 == l2[m2]->Leave_0 && forall|j: int|
                    c < j < m2 ==> !(#[trigger] l2[j] is Call);
            assert(l[c + l1.len()] == l2[c]);
            assert forall|j: int| c + l1.len() < j < m implies !(#[trigger] l[j] is Call) by {
                assert(l[j] == l2[j - l1.len()]);
            }
        }
    }
}

/// A call followed only by requests of its own callback.
pub proof fn lemma_leaves_own_chunk<T>(log: Seq<Event<T>>, from: int)
    requires
        0 <= from < log.len(),
        log[from] is Call,
        forall|m: int| from < m < log.len() ==> !(#[trigger] log[m] is Call),
        forall|m: int|
            from < m < log.len() && (#[trigger] log[m]) is Leave ==> log[m]->Leave_0
                == log[from]->Call_0,
    ensures
        leaves_own(tail(log, from)),
{
    let l = tail(log, from);
    assert forall|m: int| 0 <= m < l.len() && (#[trigger] l[m]) is Leave implies exists|c: int|
        0 <= c < m && l[c] is Call && l[c]->Call_0 == l[m]->Leave_0 && forall|j: int|
            c < j < m ==> !(#[trigger] l[j] is Call) by {
        assert(l[m] == log[from + m]);
        assert(l[0] == log[from]);
        assert forall|j: int| 0 < j < m implies !(#[trigger] l[j] is Call) by {
            assert(l[j] == log[from + j]);
        }
    }
}

/// A log that grew from `s1` (from position `from` on) splits into the old
/// tail and what came after.
pub proof fn lemma_tail_split<A>(s1: Seq<A>, s2: Seq<A>, from: int)
    requires
        0 <= from <= s1.len() <= s2.len(),
        s2.subrange(0, s1.len() as int) == s1,
    ensures
        tail(s2, from) == tail(s1, from) + tail(s2, s1.len() as int),
{
    assert forall|i: int| 0 <= i < tail(s2, from).len() implies tail(s2, from)[i] == (tail(s1, from)
        + tail(s2, s1.len() as int))[i] by {
        if from + i < s1.len() {
            assert(s2.subrange(0, s1.len() as int)[from + i] == s1[from + i]);
        }
    }
    assert(tail(s2, from) =~= tail(s1, from) + tail(s2, s1.len() as int));
}

/// What was appended to `s` since it had length `from`.
pub open spec fn since(s: Seq<u64>, from: int) -> Seq<u64> {
    s.subrange(from, s.len() as int)
}

/// Every subscriber of `before` is still in `after`, unless its cancellation
/// is among `asked`.
pub open spec fn kept_unless_cancelled(before: Seq<Entry>, after: Seq<Entry>, asked: Seq<u64>) -> bool {
    forall|k: int|
        0 <= k < before.len() ==> has_id(after, #[trigger] before[k].id) || asked.contains(
            before[k].id,
        )
}

/// Position by position, an entry of `after` is a tombstone only if it was
/// one in `before` or its cancellation is among `asked`.
pub open spec fn dead_only_if_asked(before: Seq<Entry>, after: Seq<Entry>, asked: Seq<u64>) -> bool {
    forall|k: int|
        0 <= k < before.len() && (#[trigger] after[k]).deleted ==> before[k].deleted
            || asked.contains(after[k].id)
}

/// Whatever `s1` held since `from` is still held by `s2` since `from`, when
/// `s2` only grew from `s1`.
pub proof fn lemma_since_grows(s1: Seq<u64>, s2: Seq<u64>, from: int)
    requires
        0 <= from <= s1.len() <= s2.len(),
        s2.subrange(0, s1.len() as int) == s1,
    ensures
        forall|x: u64| since(s1, from).contains(x) ==> #[trigger] since(s2, from).contains(x),
{
    assert forall|x: u64| since(s1, from).contains(x) implies #[trigger] since(s2, from).contains(x) by {
        let w = choose|w: int| 0 <= w < since(s1, from).len() && since(s1, from)[w] == x;
        assert(s2.subrange(0, s1.len() as int)[from + w] == s1[from + w]);
        assert(since(s2, from)[w] == x);
    }
}

/// Two steps of the frame make one: what the first kept the second kept,
/// unless cancelled in either.
pub proof fn lemma_kept_chain(
    a: Seq<Entry>,
    b: Seq<Entry>,
    c: Seq<Entry>,
    log2: Seq<u64>,
    log3: Seq<u64>,
    from: int,
)
    requires
        0 <= from <= log2.len() <= log3.len(),
        log3.subrange(0, log2.len() as int) == log2,
        kept_unless_cancelled(a, b, since(log2, from)),
        kept_unless_cancelled(b, c, since(log3, log2.len() as int)),
    ensures
        kept_unless_cancelled(a, c, since(log3, from)),
{
    lemma_since_grows(log2, log3, from);
    assert forall|k: int| 0 <= k < a.len() implies has_id(c, #[trigger] a[k].id) || since(
        log3,
        from,
    ).contains(a[k].id) by {
        if has_id(b, a[k].id) {
            let j = choose|j: int| 0 <= j < b.len() && b[j].id == a[k].id;
            assert(has_id(c, b[j].id) || since(log3, log2.len() as int).contains(b[j].id));
            if !has_id(c, b[j].id) {
                let w = choose|w: int|
                    0 <= w < since(log3, log2.len() as int).len() && since(
                        log3,
                        log2.len() as int,
                    )[w] == b[j].id;
                assert(since(log3, from)[w + log2.len() - from] == b[j].id);
            }
        }
    }
}

/// During a notification pass the registry only grows at its end, and its
/// entries keep their identifiers and never come back from a tombstone.
pub open spec fn kept_in_pass(before: Seq<Entry>, after: Seq<Entry>) -> bool {
    &&& after.len() >= before.len()
    &&& forall|k: int|
        0 <= k < before.len() ==> (#[trigger] after[k]).id == before[k].id && (before[k].deleted
            ==> after[k].deleted)
}

/// The identifiers strictly increase along `s`: none comes twice.
pub open spec fn increasing(s: Seq<u64>) -> bool {
    forall|i: int, j: int| 0 <= i < j < s.len() ==> s[i] < s[j]
}

/// The outcome of a write, from the cell `a` before it to `s` after it: the
/// registry is exactly `a`'s, with the additions and cancellations that the
/// callbacks of the pass asked for applied in order and the tombstones swept;
/// every call of the pass went to an entry live at that moment and showed the
/// new value; each self-cancellation cancelled the subscriber whose callback
/// asked for it; the calls made before are kept, the pass showed every subscriber it called the
/// new value, called them in increasing order of identifier, none twice, and
/// reached every subscriber left in the registry; and every subscriber of `a`
/// is still there unless a callback of the pass asked to cancel it.
pub open spec fn reached_all<T, O: Observer<T>>(a: Signal<T, O>, s: Signal<T, O>) -> bool {
    let before = a.calls();
    let history = tail(s.events(), a.events().len() as int);
    &&& s.events().len() >= a.events().len()
    &&& s.events().subrange(0, a.events().len() as int) == a.events()
    &&& s.entries() == swept(replay(a.entries(), history, true))
    &&& all_live(s.entries())
    &&& ids_increasing(s.entries())
    &&& calls_only_live(a.entries(), history, true)
    &&& leaves_own(history)
    &&& forall|m: int|
        0 <= m < history.len() && (#[trigger] history[m]) is Call ==> history[m]->Call_1
            == s.value()->Some_0
    &&& s.seen().len() == s.calls().len()
    &&& call_ids(s.events()) == s.calls()
    &&& call_values(s.events()) == s.seen()
    &&& s.cancels().len() >= a.cancels().len()
    &&& s.cancels().subrange(0, a.cancels().len() as int) == a.cancels()
    &&& kept_unless_cancelled(a.entries(), s.entries(), since(s.cancels(), a.cancels().len() as int))
    &&& s.calls().len() >= before.len()
    &&& s.seen().subrange(0, before.len() as int) == a.seen()
    &&& forall|m: int|
        before.len() <= m < s.seen().len() ==> #[trigger] s.seen()[m] == s.value()->Some_0
    &&& s.calls().subrange(0, before.len() as int) == before
    &&& increasing(s.calls().subrange(before.len() as int, s.calls().len() as int))
    &&& forall|k: int|
        0 <= k < s.entries().len() ==> s.calls().subrange(
            before.len() as int,
            s.calls().len() as int,
        ).contains(#[trigger] s.entries()[k].id)
}

impl<T, O: Observer<T>> Signal<T, O> {
    /// At rest the cell is idle, its registry sorted and free of tombstones.
    pub closed spec fn wf(&self) -> bool {
        &&& self.raw.wf()
        &&& self.raw.all_held()
        &&& self.raw.state == SignalState::Idling
        &&& self.seen@.len() == self.calls@.len()
        &&& call_ids(self.events@) == self.calls@
        &&& call_values(self.events@) == self.seen@
    }

    pub closed spec fn value(&self) -> Option<T> {
        self.value
    }

    /// The registry: identifiers in subscription order.
    pub closed spec fn entries(&self) -> Seq<Entry> {
        self.raw.entries()
    }

    /// The identifier that the next subscription will receive.
    pub closed spec fn next_id(&self) -> u64 {
        self.raw.next_id
    }

    /// The identifiers of the subscribers called so far, in call order.
    pub closed spec fn calls(&self) -> Seq<u64> {
        self.calls@
    }

    /// The value shown in each of those calls.
    pub closed spec fn seen(&self) -> Seq<T> {
        self.seen@
    }

    /// The identifiers whose cancellation callbacks asked for, in order.
    pub closed spec fn cancels(&self) -> Seq<u64> {
        self.cancels@
    }

    /// The history of calls, additions and cancellations, in order.
    pub closed spec fn events(&self) -> Seq<Event<T>> {
        self.events@
    }

    fn from_value(value: Option<T>) -> (r: Self)
        ensures
            r.wf(),
            r.value() == value,
            r.entries() == Seq::<Entry>::empty(),
            r.next_id() == 1,
            r.calls() == Seq::<u64>::empty(),
            r.cancels() == Seq::<u64>::empty(),
            r.events() == Seq::<Event<T>>::empty(),
            r.seen() == Seq::<T>::empty(),
    {
        Signal {
            value,
            raw: RawSignal::new(),
            calls: Ghost(Seq::empty()),
            seen: Ghost(Seq::empty()),
            cancels: Ghost(Seq::empty()),
            events: Ghost(Seq::empty()),
        }
    }

    /// A cell holding `value`, with no subscriber.
    pub fn new(value: T) -> (r: Self)
        ensures
            r.wf(),
            r.value() == Some(value),
            r.entries() == Seq::<Entry>::empty(),
            r.next_id() == 1,
            r.calls() == Seq::<u64>::empty(),
            r.seen() == Seq::<T>::empty(),
            r.cancels() == Seq::<u64>::empty(),
            r.events() == Seq::<Event<T>>::empty(),
    {
        Self::from_value(Some(value))
    }

    /// A cell with no value yet: reads fail until the first write.
    pub fn uninit() -> (r: Self)
        ensures
            r.wf(),
            r.value() is None,
            r.entries() == Seq::<Entry>::empty(),
            r.next_id() == 1,
            r.calls() == Seq::<u64>::empty(),
            r.seen() == Seq::<T>::empty(),
            r.cancels() == Seq::<u64>::empty(),
            r.events() == Seq::<Event<T>>::empty(),
    {
        Self::from_value(None)
    }

    pub fn is_initialized(&self) -> (r: bool)
        ensures
            r == self.value() is Some,
    {
        self.value.is_some()
    }

    /// A clone of the value, or an error if the cell was never written.
    pub fn try_get(&self) -> (r: Result<T, SignalUninitError>)
        where
            T: Clone,
        ensures
            self.value() is None ==> r == Err::<T, SignalUninitError>(SignalUninitError),
            self.value() is Some ==> r is Ok && cloned(self.value()->Some_0, r->Ok_0),
    {
        match &self.value {
            Some(v) => Ok(v.clone()),
            None => Err(SignalUninitError),
        }
    }

    /// A clone of the value.
    pub fn get(&self) -> (r: T)
        where
            T: Clone,
        requires
            self.value() is Some,
        ensures
            cloned(self.value()->Some_0, r),
    {
        self.value.as_ref().unwrap().clone()
    }

    /// The identifiers in the registry, in subscription order.
    pub fn subscriber_ids(&self) -> (r: Vec<u64>)
        requires
            self.wf(),
        ensures
            r@.len() == self.entries().len(),
            forall|k: int| 0 <= k < r@.len() ==> #[trigger] r@[k] == self.entries()[k].id,
    {
        let mut r: Vec<u64> = Vec::new();
        let mut i: usize = 0;
        while i < self.raw.subscribers.len()
            invariant
                i <= self.raw.subscribers@.len(),
                r@.len() == i,
                forall|k: int| 0 <= k < i ==> #[trigger] r@[k] == self.raw.entries()[k].id,
            decreases self.raw.subscribers@.len() - i,
        {
            r.push(self.raw.subscribers[i].id());
            i = i + 1;
        }
        r
    }

    pub(crate) fn cancel(&mut self, id: u64)
        requires
            old(self).wf(),
        ensures
            final(self).wf(),
            final(self).entries() == cancelled(old(self).entries(), id, false),
            final(self).value() == old(self).value(),
            final(self).next_id() == old(self).next_id(),
            final(self).calls() == old(self).calls(),
            final(self).seen() == old(self).seen(),
            final(self).cancels() == old(self).cancels(),
            final(self).events() == old(self).events(),
    {
        self.raw.unsubscribe(id);
    }

    /// Applies what a callback asked through its scope, in order: each new
    /// subscription is appended, each cancellation goes through the registry.
    /// Returns the identifiers appended.
    fn apply_requests(&mut self, scope: Scope<O>, caller: u64) -> (fresh: Vec<u64>)
        requires
            old(self).raw.wf(),
            old(self).raw.all_held(),
            old(self).raw.state != SignalState::Idling,
        ensures
            final(self).raw.wf(),
            final(self).raw.all_held(),
            final(self).raw.state == old(self).raw.state,
            final(self).value == old(self).value,
            final(self).calls == old(self).calls,
            final(self).seen == old(self).seen,
            final(self).raw.next_id >= old(self).raw.next_id,
            final(self).raw.next_id - old(self).raw.next_id >= final(self).raw.entries().len()
                - old(self).raw.entries().len(),
            forall|j: int|
                0 <= j < fresh@.len() ==> old(self).raw.next_id <= #[trigger] fresh@[j]
                    < final(self).raw.next_id,
            old(self).raw.state == SignalState::Mutating ==> kept_in_pass(
                old(self).raw.entries(),
                final(self).raw.entries(),
            ),
            final(self).cancels@.len() >= old(self).cancels@.len(),
            final(self).cancels@.subrange(0, old(self).cancels@.len() as int) == old(self).cancels@,
            kept_unless_cancelled(
                old(self).raw.entries(),
                final(self).raw.entries(),
                since(final(self).cancels@, old(self).cancels@.len() as int),
            ),
            old(self).raw.state == SignalState::Mutating ==> dead_only_if_asked(
                old(self).raw.entries(),
                final(self).raw.entries(),
                since(final(self).cancels@, old(self).cancels@.len() as int),
            ),
            forall|m: int|
                old(self).events@.len() <= m < final(self).events@.len() && (
                #[trigger] final(self).events@[m]) is Leave ==> final(self).events@[m]->Leave_0
                    == caller,
            call_ids(final(self).events@) == call_ids(old(self).events@),
            call_values(final(self).events@) == call_values(old(self).events@),
            final(self).events@.len() >= old(self).events@.len(),
            final(self).events@.subrange(0, old(self).events@.len() as int) == old(self).events@,
            final(self).raw.entries() == replay(
                old(self).raw.entries(),
                tail(final(self).events@, old(self).events@.len() as int),
                old(self).raw.state == SignalState::Mutating,
            ),
            forall|m: int|
                old(self).events@.len() <= m < final(self).events@.len() ==> !(
                #[trigger] final(self).events@[m] is Call),
    {
        let ghost v0 = self.events@;
        proof {
            assert(v0.subrange(0, v0.len() as int) =~= v0);
            assert(tail(v0, v0.len() as int) =~= Seq::<Event<T>>::empty());
        }
        let ghost e0 = self.raw.entries();
        let ghost k0 = self.cancels@;
        let mut requests = scope.requests;
        proof {
            assert(k0.subrange(0, k0.len() as int) =~= k0);
            assert forall|k: int| 0 <= k < e0.len() implies has_id(e0, #[trigger] e0[k].id) by {}
        }
        let mut fresh: Vec<u64> = Vec::new();
        while requests.len() > 0
            invariant
                self.raw.wf(),
                self.raw.all_held(),
                self.raw.state == old(self).raw.state,
                self.value == old(self).value,
                self.calls == old(self).calls,
                self.seen == old(self).seen,
                self.raw.next_id >= old(self).raw.next_id,
                self.raw.next_id - old(self).raw.next_id >= self.raw.entries().len() - old(self).raw.entries().len(),
                forall|j: int|
                    0 <= j < fresh@.len() ==> old(self).raw.next_id <= #[trigger] fresh@[j]
                        < self.raw.next_id,
                old(self).raw.state == SignalState::Mutating ==> kept_in_pass(
                    old(self).raw.entries(),
                    self.raw.entries(),
                ),
                e0 == old(self).raw.entries(),
                k0 == old(self).cancels@,
                v0 == old(self).events@,
                forall|m: int|
                    v0.len() <= m < self.events@.len() && (#[trigger] self.events@[m]) is Leave
                        ==> self.events@[m]->Leave_0 == caller,
                call_ids(self.events@) == call_ids(v0),
                call_values(self.events@) == call_values(v0),
                self.events@.len() >= v0.len(),
                self.events@.subrange(0, v0.len() as int) == v0,
                self.raw.entries() == replay(
                    e0,
                    tail(self.events@, v0.len() as int),
                    self.raw.state == SignalState::Mutating,
                ),
                forall|m: int|
                    v0.len() <= m < self.events@.len() ==> !(#[trigger] self.events@[m] is Call),
                self.cancels@.len() >= k0.len(),
                self.cancels@.subrange(0, k0.len() as int) == k0,
                kept_unless_cancelled(e0, self.raw.entries(), since(self.cancels@, k0.len() as int)),
                old(self).raw.state == SignalState::Mutating ==> dead_only_if_asked(
                    e0,
                    self.raw.entries(),
                    since(self.cancels@, k0.len() as int),
                ),
            decreases requests.len(),
        {
            let ghost e1 = self.raw.entries();
            let ghost k1 = self.cancels@;
            let ghost w1 = self.events@;
            let request = requests.remove(0);
            match request {
                Request::Subscribe(id, observer) => {
                    if self.raw.register(id, observer) {
                        fresh.push(id);
                        self.events = Ghost(self.events@.push(Event::Add(id)));
                        proof {
                            lemma_call_log_push(w1, Event::<T>::Add(id));
                            lemma_replay_push(e0, tail(w1, v0.len() as int), Event::<T>::Add(id), self.raw.state == SignalState::Mutating);
                            assert(tail(self.events@, v0.len() as int) =~= tail(w1, v0.len() as int).push(Event::Add(id)));
                        }
                    }
                    proof {
                        assert(self.events@.subrange(0, v0.len() as int) =~= w1.subrange(0, v0.len() as int));
                        let e2 = self.raw.entries();
                        assert forall|k: int| 0 <= k < e0.len() && has_id(e1, #[trigger] e0[k].id) implies has_id(e2, e0[k].id) by {
                            let j = choose|j: int| 0 <= j < e1.len() && e1[j].id == e0[k].id;
                            assert(e2[j] == e1[j]);
                        }
                    }
                },
                other => {
                    let (id, own) = match other {
                        Request::Cancel(x) => (x, false),
                        _ => (caller, true),
                    };
                    let ghost ev = if own { Event::<T>::Leave(id) } else { Event::<T>::Drop(id) };
                    let ghost before = self.raw.entries();
                    self.cancels = Ghost(self.cancels@.push(id));
                    self.events = Ghost(self.events@.push(ev));
                    proof {
                        lemma_call_log_push(w1, ev);
                    }
                    self.raw.unsubscribe(id);
                    proof {
                        if has_id(before, id) {
                            let p = crate::raw::position_of(before, id);
                            assert(0 <= p < before.len() && before[p].id == id);
                        }
                        crate::raw::lemma_cancel_keeps_others(before, id, self.raw.state == SignalState::Mutating);
                        lemma_replay_push(e0, tail(w1, v0.len() as int), ev, self.raw.state == SignalState::Mutating);
                        assert(tail(self.events@, v0.len() as int) =~= tail(w1, v0.len() as int).push(ev));
                        assert(self.events@.subrange(0, v0.len() as int) =~= w1.subrange(0, v0.len() as int));
                        assert(self.cancels@.subrange(0, k1.len() as int) =~= k1);
                        lemma_since_grows(k1, self.cancels@, k0.len() as int);
                        let asked = since(self.cancels@, k0.len() as int);
                        assert(asked[asked.len() - 1] == id);
                        assert(asked.contains(id));
                        assert(self.cancels@.subrange(0, k0.len() as int) =~= k1.subrange(0, k0.len() as int));
                        let e2 = self.raw.entries();
                        assert forall|k: int| 0 <= k < e0.len() implies has_id(e2, #[trigger] e0[k].id) || asked.contains(e0[k].id) by {
                            if has_id(e1, e0[k].id) {
                                let j = choose|j: int| 0 <= j < e1.len() && e1[j].id == e0[k].id;
                                if e1[j].id != id {
                                    assert(has_id(e2, e1[j].id));
                                }
                            }
                        }
                        if self.raw.state == SignalState::Mutating {
                            assert forall|k: int| 0 <= k < e0.len() && (#[trigger] e2[k]).deleted implies e0[k].deleted || asked.contains(e2[k].id) by {
                                assert(e2[k].id == e1[k].id);
                                if !(e1[k].deleted) {
                                    assert(e1[k].id == id);
                                }
                            }
                        }
                    }
                },
            }
        }
        fresh
    }

    /// The first call of the subscriber `id`, with the current value, and then
    /// of every subscriber that call added, in the order they were added.
    fn fire_new(&mut self, id: u64)
        requires
            old(self).raw.wf(),
            old(self).raw.all_held(),
            old(self).raw.state == SignalState::Subscribing,
            old(self).value is Some,
            old(self).seen@.len() == old(self).calls@.len(),
            call_ids(old(self).events@) == old(self).calls@,
            call_values(old(self).events@) == old(self).seen@,
        ensures
            call_ids(final(self).events@) == final(self).calls@,
            call_values(final(self).events@) == final(self).seen@,
            final(self).seen@.len() == final(self).calls@.len(),
            final(self).seen@.subrange(0, old(self).seen@.len() as int) == old(self).seen@,
            forall|m: int|
                old(self).seen@.len() <= m < final(self).seen@.len() ==> #[trigger] final(self).seen@[m]
                    == old(self).value->Some_0,
            final(self).raw.wf(),
            final(self).raw.all_held(),
            final(self).raw.state == SignalState::Subscribing,
            final(self).value == old(self).value,
            final(self).raw.next_id >= old(self).raw.next_id,
            final(self).calls@.len() >= old(self).calls@.len(),
            final(self).calls@.subrange(0, old(self).calls@.len() as int) == old(self).calls@,
            has_id(old(self).raw.entries(), id) ==> final(self).calls@.len() > old(self).calls@.len() && final(self).calls@[old(self).calls@.len() as int] == id,
            forall|m: int|
                old(self).calls@.len() <= m < final(self).calls@.len() ==> (m == old(self).calls@.len() && #[trigger] final(self).calls@[m] == id) || final(self).calls@[m] >= old(self).raw.next_id,
            final(self).cancels@.len() >= old(self).cancels@.len(),
            final(self).cancels@.subrange(0, old(self).cancels@.len() as int) == old(self).cancels@,
            kept_unless_cancelled(
                old(self).raw.entries(),
                final(self).raw.entries(),
                since(final(self).cancels@, old(self).cancels@.len() as int),
            ),
            final(self).events@.len() >= old(self).events@.len(),
            final(self).events@.subrange(0, old(self).events@.len() as int) == old(self).events@,
            final(self).raw.entries() == replay(
                old(self).raw.entries(),
                tail(final(self).events@, old(self).events@.len() as int),
                false,
            ),
            calls_only_live(
                old(self).raw.entries(),
                tail(final(self).events@, old(self).events@.len() as int),
                false,
            ),
            has_id(old(self).raw.entries(), id) ==> final(self).events@.len() > old(self).events@.len()
                && final(self).events@[old(self).events@.len() as int] == Event::Call(
                id,
                old(self).value->Some_0,
            ),
            forall|m: int|
                old(self).events@.len() <= m < final(self).events@.len() && (
                #[trigger] final(self).events@[m]) is Call ==> final(self).events@[m]->Call_1
                    == old(self).value->Some_0,
            leaves_own(tail(final(self).events@, old(self).events@.len() as int)),
        decreases ID_LIMIT - old(self).raw.next_id,
    {
        let ghost ev_in = self.events@;
        proof {
            assert(ev_in.subrange(0, ev_in.len() as int) =~= ev_in);
            assert(tail(ev_in, ev_in.len() as int) =~= Seq::<Event<T>>::empty());
        }
        let ghost e_in = self.raw.entries();
        let ghost k_in = self.cancels@;
        proof {
            assert(k_in.subrange(0, k_in.len() as int) =~= k_in);
            assert forall|k: int| 0 <= k < e_in.len() implies has_id(e_in, #[trigger] e_in[k].id) by {}
        }
        assert(self.calls@.subrange(0, self.calls@.len() as int) =~= self.calls@);
        assert(self.seen@.subrange(0, self.seen@.len() as int) =~= self.seen@);
        let found = self.raw.find(id);
        if let Some(k) = found {
            let taken = self.raw.take_callback(k);
            if let Some(mut callback) = taken {
                let mut scope = Scope::new(SignalState::Subscribing, id, self.raw.next_id);
                match &self.value {
                    Some(v) => callback.notify(v, &mut scope),
                    None => {},
                }
                self.calls = Ghost(self.calls@.push(id));
                self.seen = Ghost(self.seen@.push(self.value->Some_0));
                proof {
                    lemma_call_log_push(self.events@, Event::Call(id, self.value->Some_0));
                }
                self.events = Ghost(self.events@.push(Event::Call(id, self.value->Some_0)));
                proof {
                    let one = tail(self.events@, ev_in.len() as int);
                    assert(one =~= Seq::<Event<T>>::empty().push(Event::Call(id, self.value->Some_0)));
                    lemma_replay_push(e_in, Seq::<Event<T>>::empty(), Event::Call(id, self.value->Some_0), false);
                    assert(one.take(0) =~= Seq::<Event<T>>::empty());
                    assert(e_in[k as int].id == id);
                    assert(!e_in[k as int].deleted);
                    assert(live_in(e_in, id));
                    assert(self.events@.subrange(0, ev_in.len() as int) =~= ev_in);
                }
                self.raw.put_callback(k, callback);
                let ghost c1 = self.calls@;
                let ghost v1 = self.seen@;
                let ghost n0 = old(self).raw.next_id;
                let ghost ev1 = self.events@;
                let fresh = self.apply_requests(scope, id);
                proof {
                    let t1 = tail(ev1, ev_in.len() as int);
                    let t2 = tail(self.events@, ev1.len() as int);
                    lemma_tail_split(ev1, self.events@, ev_in.len() as int);
                    lemma_replay_concat(e_in, t1, t2, false);
                    assert forall|m: int| 0 <= m < t2.len() && (#[trigger] t2[m]) is Call implies live_in(replay(replay(e_in, t1, false), t2.take(m), false), t2[m]->Call_0) by {
                        assert(t2[m] == self.events@[ev1.len() + m]);
                    }
                    lemma_calls_only_live_concat(e_in, t1, t2, false);
                    lemma_leaves_own_chunk(self.events@, ev_in.len() as int);
                    assert(self.events@.subrange(0, ev_in.len() as int) =~= ev1.subrange(0, ev_in.len() as int));
                    assert(self.events@.subrange(0, ev1.len() as int)[ev_in.len() as int] == ev1[ev_in.len() as int]);
                    assert forall|m: int| ev_in.len() <= m < self.events@.len() && (#[trigger] self.events@[m]) is Call implies self.events@[m]->Call_1 == old(self).value->Some_0 by {
                        if m < ev1.len() {
                            assert(self.events@.subrange(0, ev1.len() as int)[m] == ev1[m]);
                        }
                    }
                }
                proof {
                    if fresh@.len() > 0 {
                        assert(n0 <= fresh@[0] < self.raw.next_id);
                    }
                }
                let mut j: usize = 0;
                while j < fresh.len()
                    invariant
                        self.raw.wf(),
                        self.raw.all_held(),
                        self.raw.state == SignalState::Subscribing,
                        self.value == old(self).value,
                        self.value is Some,
                        n0 == old(self).raw.next_id,
                        self.raw.next_id >= n0,
                        fresh@.len() > 0 ==> self.raw.next_id > n0,
                        forall|i: int| 0 <= i < fresh@.len() ==> n0 <= #[trigger] fresh@[i],
                        self.calls@.len() >= c1.len(),
                        self.calls@.subrange(0, c1.len() as int) == c1,
                        self.seen@.len() == self.calls@.len(),
                        v1.len() == c1.len(),
                        self.seen@.subrange(0, v1.len() as int) == v1,
                        forall|m: int|
                            v1.len() <= m < self.seen@.len() ==> #[trigger] self.seen@[m]
                                == old(self).value->Some_0,
                        forall|m: int|
                            c1.len() <= m < self.calls@.len() ==> #[trigger] self.calls@[m] >= n0,
                        e_in == old(self).raw.entries(),
                        k_in == old(self).cancels@,
                        self.cancels@.len() >= k_in.len(),
                        self.cancels@.subrange(0, k_in.len() as int) == k_in,
                        kept_unless_cancelled(e_in, self.raw.entries(), since(self.cancels@, k_in.len() as int)),
                        ev_in == old(self).events@,
                        call_ids(self.events@) == self.calls@,
                        call_values(self.events@) == self.seen@,
                        leaves_own(tail(self.events@, ev_in.len() as int)),
                        self.events@.len() >= ev_in.len(),
                        self.events@.subrange(0, ev_in.len() as int) == ev_in,
                        self.raw.entries() == replay(e_in, tail(self.events@, ev_in.len() as int), false),
                        calls_only_live(e_in, tail(self.events@, ev_in.len() as int), false),
                        self.events@.len() > ev_in.len(),
                        self.events@[ev_in.len() as int] == Event::Call(id, old(self).value->Some_0),
                        forall|m: int|
                            ev_in.len() <= m < self.events@.len() && (#[trigger] self.events@[m]) is Call
                                ==> self.events@[m]->Call_1 == old(self).value->Some_0,
                    decreases fresh.len() - j,
                {
                    let ghost entries_before = self.raw.entries();
                    let ghost events_before = self.events@;
                    let ghost cancels_before = self.cancels@;
                    let ghost before = self.calls@;
                    let ghost seen_before = self.seen@;
                    assert(self.raw.next_id > n0);
                    self.fire_new(fresh[j]);
                    proof {
                        lemma_kept_chain(e_in, entries_before, self.raw.entries(), cancels_before, self.cancels@, k_in.len() as int);
                        lemma_tail_split(events_before, self.events@, ev_in.len() as int);
                        lemma_replay_concat(e_in, tail(events_before, ev_in.len() as int), tail(self.events@, events_before.len() as int), false);
                        lemma_calls_only_live_concat(e_in, tail(events_before, ev_in.len() as int), tail(self.events@, events_before.len() as int), false);
                        lemma_leaves_own_concat(tail(events_before, ev_in.len() as int), tail(self.events@, events_before.len() as int));
                        assert(self.events@.subrange(0, ev_in.len() as int) =~= events_before.subrange(0, ev_in.len() as int));
                        assert(self.events@.subrange(0, events_before.len() as int)[ev_in.len() as int] == events_before[ev_in.len() as int]);
                        assert forall|m: int| ev_in.len() <= m < self.events@.len() && (#[trigger] self.events@[m]) is Call implies self.events@[m]->Call_1 == old(self).value->Some_0 by {
                            if m < events_before.len() {
                                assert(self.events@.subrange(0, events_before.len() as int)[m] == events_before[m]);
                            }
                        }
                        assert(self.cancels@.subrange(0, k_in.len() as int) =~= cancels_before.subrange(0, k_in.len() as int));
                        assert forall|m: int| c1.len() <= m < self.calls@.len() implies #[trigger] self.calls@[m] >= n0 by {
                            if m < before.len() {
                                assert(self.calls@.subrange(0, before.len() as int)[m] == before[m]);
                            }
                        }
                        assert(self.calls@.subrange(0, c1.len() as int) =~= before.subrange(0, c1.len() as int));
                        assert(self.seen@.subrange(0, v1.len() as int) =~= seen_before.subrange(0, v1.len() as int));
                        assert forall|m: int| v1.len() <= m < self.seen@.len() implies #[trigger] self.seen@[m] == old(self).value->Some_0 by {
                            if m < seen_before.len() {
                                assert(self.seen@.subrange(0, seen_before.len() as int)[m] == seen_before[m]);
                            }
                        }
                    }
                    j = j + 1;
                }
                proof {
                    assert(c1.subrange(0, old(self).calls@.len() as int) =~= old(self).calls@);
                    assert(v1.subrange(0, old(self).seen@.len() as int) =~= old(self).seen@);
                    assert(self.seen@.subrange(0, old(self).seen@.len() as int) =~= v1.subrange(0, old(self).seen@.len() as int));
                    assert forall|m: int| old(self).seen@.len() <= m < self.seen@.len() implies #[trigger] self.seen@[m] == old(self).value->Some_0 by {
                        if m < v1.len() {
                            assert(self.seen@.subrange(0, v1.len() as int)[m] == v1[m]);
                        }
                    }
                    assert(self.calls@.subrange(0, old(self).calls@.len() as int) =~= c1.subrange(0, old(self).calls@.len() as int));
                    assert(self.calls@[old(self).calls@.len() as int] == c1[old(self).calls@.len() as int]);
                }
            }
        }
    }
}

impl<T, O: Observer<T>> Signal<T, O> {
    /// The notification pass that follows a write: each live entry is called
    /// in registry order, the length being read again at every step, so that
    /// entries appended meanwhile are reached too. Tombstones are swept at
    /// the end and the cell is idle again.
    fn notify_all(&mut self)
        requires
            old(self).raw.wf(),
            old(self).raw.all_held(),
            old(self).raw.state == SignalState::Mutating,
            old(self).value is Some,
            old(self).seen@.len() == old(self).calls@.len(),
            call_ids(old(self).events@) == old(self).calls@,
            call_values(old(self).events@) == old(self).seen@,
            all_live(old(self).raw.entries()),
        ensures
            final(self).wf(),
            final(self).value() == old(self).value(),
            final(self).next_id() >= old(self).next_id(),
            reached_all(*old(self), *final(self)),
    {
        let ghost c0 = self.calls@;
        let ghost s0 = self.seen@;
        let ghost e_start = self.raw.entries();
        let ghost k_start = self.cancels@;
        let ghost ev0 = self.events@;
        proof {
            assert(ev0.subrange(0, ev0.len() as int) =~= ev0);
            assert(tail(ev0, ev0.len() as int) =~= Seq::<Event<T>>::empty());
        }
        proof {
            assert(k_start.subrange(0, k_start.len() as int) =~= k_start);
        }
        let mut i: usize = 0;
        assert(c0.subrange(0, c0.len() as int) =~= c0);
        assert(s0.subrange(0, s0.len() as int) =~= s0);
        while i < self.raw.subscribers.len()
            invariant
                self.raw.wf(),
                self.raw.all_held(),
                self.raw.state == SignalState::Mutating,
                self.value == old(self).value,
                self.value is Some,
                i <= self.raw.entries().len(),
                self.raw.next_id >= old(self).raw.next_id,
                self.calls@.len() >= c0.len(),
                self.calls@.subrange(0, c0.len() as int) == c0,
                self.seen@.len() == self.calls@.len(),
                s0.len() == c0.len(),
                self.seen@.subrange(0, s0.len() as int) == s0,
                forall|m: int|
                    s0.len() <= m < self.seen@.len() ==> #[trigger] self.seen@[m]
                        == self.value->Some_0,
                e_start == old(self).raw.entries(),
                all_live(e_start),
                k_start == old(self).cancels@,
                self.cancels@.len() >= k_start.len(),
                self.cancels@.subrange(0, k_start.len() as int) == k_start,
                kept_in_pass(e_start, self.raw.entries()),
                dead_only_if_asked(e_start, self.raw.entries(), since(self.cancels@, k_start.len() as int)),
                forall|k: int|
                    0 <= k < i && !self.raw.entries()[k].deleted ==> self.calls@.subrange(
                        c0.len() as int,
                        self.calls@.len() as int,
                    ).contains(#[trigger] self.raw.entries()[k].id),
                increasing(self.calls@.subrange(c0.len() as int, self.calls@.len() as int)),
                forall|m: int, k: int|
                    0 <= m < self.calls@.len() - c0.len() && i <= k < self.raw.entries().len()
                        ==> #[trigger] self.calls@.subrange(
                        c0.len() as int,
                        self.calls@.len() as int,
                    )[m] < #[trigger] self.raw.entries()[k].id,
                ev0 == old(self).events@,
                call_ids(self.events@) == self.calls@,
                call_values(self.events@) == self.seen@,
                leaves_own(tail(self.events@, ev0.len() as int)),
                self.events@.len() >= ev0.len(),
                self.events@.subrange(0, ev0.len() as int) == ev0,
                self.raw.entries() == replay(e_start, tail(self.events@, ev0.len() as int), true),
                calls_only_live(e_start, tail(self.events@, ev0.len() as int), true),
                forall|m: int|
                    0 <= m < tail(self.events@, ev0.len() as int).len() && (#[trigger] tail(
                        self.events@,
                        ev0.len() as int,
                    )[m]) is Call ==> tail(self.events@, ev0.len() as int)[m]->Call_1
                        == self.value->Some_0,
            decreases (ID_LIMIT - self.raw.next_id) + (self.raw.entries().len() - i),
        {
            let ghost e0 = self.raw.entries();
            let ghost calls0 = self.calls@;
            let ghost seen0 = self.seen@;
            let ghost cancels0 = self.cancels@;
            let ghost events0 = self.events@;
            assert(self.raw.entries().len() == self.raw.subscribers@.len());
            if !self.raw.subscribers[i].deleted() {
                let id = self.raw.subscribers[i].id();
                let taken = self.raw.take_callback(i);
                if let Some(mut callback) = taken {
                    let mut scope = Scope::new(SignalState::Mutating, id, self.raw.next_id);
                    match &self.value {
                        Some(v) => callback.notify(v, &mut scope),
                        None => {},
                    }
                    self.calls = Ghost(self.calls@.push(id));
                    self.seen = Ghost(self.seen@.push(self.value->Some_0));
                    proof {
                        lemma_call_log_push(self.events@, Event::Call(id, self.value->Some_0));
                    }
                    self.events = Ghost(self.events@.push(Event::Call(id, self.value->Some_0)));
                    proof {
                        let ta = tail(events0, ev0.len() as int);
                        let tb = tail(self.events@, ev0.len() as int);
                        assert(tb =~= ta.push(Event::Call(id, self.value->Some_0)));
                        lemma_replay_push(e_start, ta, Event::Call(id, self.value->Some_0), true);
                        assert(tb.take(ta.len() as int) =~= ta);
                        assert(e0[i as int].id == id && !e0[i as int].deleted);
                        assert(live_in(e0, id));
                        assert forall|m: int| 0 <= m < tb.len() && (#[trigger] tb[m]) is Call implies live_in(replay(e_start, tb.take(m), true), tb[m]->Call_0) by {
                            if m < ta.len() {
                                assert(tb.take(m) =~= ta.take(m));
                                assert(tb[m] == ta[m]);
                            }
                        }
                        assert(self.events@.subrange(0, ev0.len() as int) =~= ev0);
                        assert forall|m: int| 0 <= m < tb.len() && (#[trigger] tb[m]) is Call implies tb[m]->Call_1 == self.value->Some_0 by {
                            if m < ta.len() {
                                assert(tb[m] == ta[m]);
                            }
                        }
                    }
                    let ghost events1 = self.events@;
                    self.raw.put_callback(i, callback);
                    let _fresh = self.apply_requests(scope, id);
                    proof {
                        let t1 = tail(events1, ev0.len() as int);
                        let t2 = tail(self.events@, events1.len() as int);
                        lemma_tail_split(events1, self.events@, ev0.len() as int);
                        lemma_replay_concat(e_start, t1, t2, true);
                        assert forall|m: int| 0 <= m < t2.len() && (#[trigger] t2[m]) is Call implies live_in(replay(replay(e_start, t1, true), t2.take(m), true), t2[m]->Call_0) by {
                            assert(t2[m] == self.events@[events1.len() + m]);
                        }
                        lemma_calls_only_live_concat(e_start, t1, t2, true);
                        assert(self.events@.subrange(0, events1.len() as int) =~= events1);
                        assert(self.events@.subrange(0, events0.len() as int) =~= events0);
                        lemma_tail_split(events0, self.events@, ev0.len() as int);
                        lemma_leaves_own_chunk(self.events@, events0.len() as int);
                        lemma_leaves_own_concat(tail(events0, ev0.len() as int), tail(self.events@, events0.len() as int));
                        let tc = tail(self.events@, ev0.len() as int);
                        assert forall|m: int| 0 <= m < tc.len() && (#[trigger] tc[m]) is Call implies tc[m]->Call_1 == self.value->Some_0 by {
                            if m < t1.len() {
                                assert(tc[m] == t1[m]);
                            } else {
                                assert(tc[m] == self.events@[ev0.len() + m]);
                            }
                        }
                        assert(self.events@.subrange(0, ev0.len() as int) =~= events1.subrange(0, ev0.len() as int));
                        let e1 = self.raw.entries();
                        assert(self.cancels@.subrange(0, cancels0.len() as int) =~= cancels0);
                        lemma_since_grows(cancels0, self.cancels@, k_start.len() as int);
                        assert(self.cancels@.subrange(0, k_start.len() as int) =~= cancels0.subrange(0, k_start.len() as int));
                        let all = since(self.cancels@, k_start.len() as int);
                        let step = since(self.cancels@, cancels0.len() as int);
                        assert forall|k: int| 0 <= k < e_start.len() && (#[trigger] e1[k]).deleted implies e_start[k].deleted || all.contains(e1[k].id) by {
                            assert(e1[k].id == e0[k].id);
                            if step.contains(e1[k].id) {
                                let w = choose|w: int| 0 <= w < step.len() && step[w] == e1[k].id;
                                assert(all[w + cancels0.len() - k_start.len()] == e1[k].id);
                            }
                        }
                        let sub0 = calls0.subrange(c0.len() as int, calls0.len() as int);
                        let sub1 = self.calls@.subrange(c0.len() as int, self.calls@.len() as int);
                        assert(sub1 =~= sub0.push(id));
                        assert(self.calls@.subrange(0, c0.len() as int) =~= calls0.subrange(0, c0.len() as int));
                        assert(self.seen@.subrange(0, s0.len() as int) =~= seen0.subrange(0, s0.len() as int));
                        assert forall|k: int|
                            0 <= k < i + 1 && !self.raw.entries()[k].deleted implies sub1.contains(
                                #[trigger] self.raw.entries()[k].id,
                            ) by {
                            assert(self.raw.entries()[k].id == e0[k].id);
                            if k < i {
                                assert(!e0[k].deleted);
                                assert(sub0.contains(e0[k].id));
                                let w = choose|w: int| 0 <= w < sub0.len() && sub0[w] == e0[k].id;
                                assert(sub1[w] == sub0[w]);
                            } else {
                                assert(sub1[sub1.len() - 1] == id);
                            }
                        }
                        let e1 = self.raw.entries();
                        assert(e1[i as int].id == id);
                        assert forall|m: int, k: int|
                            0 <= m < sub1.len() && i + 1 <= k < e1.len() implies #[trigger] sub1[m]
                            < #[trigger] e1[k].id by {
                            if m < sub0.len() {
                                assert(sub1[m] == sub0[m]);
                                assert(sub0[m] < e0[i as int].id);
                            }
                        }
                        assert forall|a: int, b: int| 0 <= a < b < sub1.len() implies sub1[a] < sub1[b] by {
                            if b < sub0.len() {
                                assert(sub1[a] == sub0[a] && sub1[b] == sub0[b]);
                            } else {
                                assert(sub1[a] == sub0[a]);
                                assert(sub0[a] < e0[i as int].id);
                            }
                        }
                    }
                }
            }
            i = i + 1;
        }
        let ghost e_end = self.raw.entries();
        let ghost calls_end = self.calls@;
        let ghost cancels_end = self.cancels@;
        self.raw.sweep();
        self.raw.state = SignalState::Idling;
        proof {
            broadcast use vstd::seq_lib::group_filter_ensures;

            let asked = since(cancels_end, k_start.len() as int);
            assert forall|k: int| 0 <= k < e_start.len() implies has_id(self.raw.entries(), #[trigger] e_start[k].id) || asked.contains(e_start[k].id) by {
                assert(e_end[k].id == e_start[k].id);
                if !e_end[k].deleted {
                    assert(self.raw.entries().contains(e_end[k]));
                    let j = choose|j: int| 0 <= j < self.raw.entries().len() && self.raw.entries()[j] == e_end[k];
                    assert(self.raw.entries()[j].id == e_start[k].id);
                }
            }
            crate::raw::lemma_swept_wf(e_end, self.raw.next_id);
            let sub = calls_end.subrange(c0.len() as int, calls_end.len() as int);
            assert forall|k: int| 0 <= k < self.raw.entries().len() implies sub.contains(
                #[trigger] self.raw.entries()[k].id,
            ) by {
                let e = self.raw.entries()[k];
                assert(e_end.contains(e));
                let j = choose|j: int| 0 <= j < e_end.len() && e_end[j] == e;
                assert(!e.deleted);
            }
        }
    }

    /// Stores `value` and notifies every subscriber. Refused while the cell
    /// is busy, which a caller holding it outside any callback never sees.
    pub fn try_set(&mut self, value: T) -> (r: Result<(), SignalUpdatingError>)
        requires
            old(self).wf(),
        ensures
            r is Ok,
            final(self).wf(),
            final(self).value() == Some(value),
            final(self).next_id() >= old(self).next_id(),
            reached_all(*old(self), *final(self)),
    {
        if self.raw.state != SignalState::Idling {
            return Err(SignalUpdatingError);
        }
        self.raw.state = SignalState::Mutating;
        self.value = Some(value);
        self.notify_all();
        Ok(())
    }

    /// Stores `value` and notifies every subscriber.
    pub fn set(&mut self, value: T)
        requires
            old(self).wf(),
        ensures
            final(self).wf(),
            final(self).value() == Some(value),
            final(self).next_id() >= old(self).next_id(),
            reached_all(*old(self), *final(self)),
    {
        let r = self.try_set(value);
        r.unwrap();
    }

    /// Replaces the value by `f` of it and notifies every subscriber.
    pub fn try_update<F: FnOnce(&T) -> T>(&mut self, f: F) -> (r: Result<
        (),
        SignalUpdatingError,
    >)
        requires
            old(self).wf(),
            old(self).value() is Some,
            f.requires((&old(self).value()->Some_0,)),
        ensures
            r is Ok,
            final(self).wf(),
            final(self).value() is Some,
            f.ensures((&old(self).value()->Some_0,), final(self).value()->Some_0),
            final(self).next_id() >= old(self).next_id(),
            reached_all(*old(self), *final(self)),
    {
        if self.raw.state != SignalState::Idling {
            return Err(SignalUpdatingError);
        }
        let next = f(self.value.as_ref().unwrap());
        self.raw.state = SignalState::Mutating;
        self.value = Some(next);
        self.notify_all();
        Ok(())
    }

    /// Replaces the value by `f` of it and notifies every subscriber.
    pub fn update<F: FnOnce(&T) -> T>(&mut self, f: F)
        requires
            old(self).wf(),
            old(self).value() is Some,
            f.requires((&old(self).value()->Some_0,)),
        ensures
            final(self).wf(),
            final(self).value() is Some,
            f.ensures((&old(self).value()->Some_0,), final(self).value()->Some_0),
            final(self).next_id() >= old(self).next_id(),
            reached_all(*old(self), *final(self)),
    {
        let r = self.try_update(f);
        r.unwrap();
    }

    /// Registers `observer` under the next identifier. If the cell holds a
    /// value, the observer is called with it at once, exactly once, before
    /// this returns (together with whatever that call subscribed in turn).
    /// When identifiers run out nothing is registered and the capability
    /// returned has no effect.
    pub fn for_each(&mut self, observer: O) -> (r: Unsubscriber)
        requires
            old(self).wf(),
        ensures
            final(self).wf(),
            final(self).value() == old(self).value(),
            subscribed(*old(self), *final(self), r.target()),
    {
        if self.raw.next_id >= ID_LIMIT {
            return Unsubscriber::inert();
        }
        let id = self.raw.next_id;
        let ghost a = *self;
        let _registered = self.raw.register(id, observer);
        proof {
            lemma_call_log_push(self.events@, Event::<T>::Add(id));
        }
        self.events = Ghost(self.events@.push(Event::Add(id)));
        proof {
            lemma_replay_push(a.raw.entries(), Seq::<Event<T>>::empty(), Event::Add(id), false);
            assert(Seq::<Event<T>>::empty().push(Event::<T>::Add(id)).take(0) =~= Seq::<Event<T>>::empty());
            assert(tail(self.events@, a.events@.len() as int) =~= Seq::<Event<T>>::empty().push(Event::Add(id)));
            assert(self.events@.subrange(0, a.events@.len() as int) =~= a.events@);
        }
        if self.value.is_some() {
            let ghost s = self.raw.entries();
            let ghost mid = self.events@;
            assert(s[s.len() - 1].id == id);
            self.raw.state = SignalState::Subscribing;
            self.fire_new(id);
            self.raw.state = SignalState::Idling;
            proof {
                let t1 = tail(mid, a.events@.len() as int);
                let t2 = tail(self.events@, mid.len() as int);
                lemma_tail_split(mid, self.events@, a.events@.len() as int);
                lemma_replay_concat(a.raw.entries(), t1, t2, false);
                lemma_calls_only_live_concat(a.raw.entries(), t1, t2, false);
                lemma_leaves_own_concat(t1, t2);
                let h = tail(self.events@, a.events@.len() as int);
                assert(self.events@.subrange(0, a.events@.len() as int) =~= mid.subrange(0, a.events@.len() as int));
                assert(h[0] == t1[0]);
                assert(h[1] == self.events@[mid.len() as int]);
                assert forall|m: int| 0 <= m < h.len() && (#[trigger] h[m]) is Call implies h[m]->Call_1 == a.value->Some_0 by {
                    if m >= 1 {
                        assert(h[m] == self.events@[a.events@.len() + m]);
                    }
                }
            }
        }
        Unsubscriber::new(id)
    }

    /// Same as `for_each`, for a subscription that lives as long as the cell.
    pub fn for_each_forever(&mut self, observer: O)
        requires
            old(self).wf(),
        ensures
            final(self).wf(),
            final(self).value() == old(self).value(),
            exists|t: Option<u64>| subscribed(*old(self), *final(self), t),
    {
        let _kept = self.for_each(observer);
    }
}

/// What a subscription did, from the cell `a` before it to the cell `b`
/// after it, `t` being the identifier handed back (if any). With identifiers
/// spent, nothing. On a cell without a value, an entry appended and no call.
/// Otherwise the new subscriber is called first, with the current value, and
/// is not called again: every later call (of what it subscribed in turn) is
/// for a larger identifier, and shows the same value. The history then starts
/// with the addition and that first call, and the registry is exactly the old
/// one with the history's additions and cancellations applied in order; each
/// self-cancellation cancelled the subscriber whose callback asked for it.
pub open spec fn subscribed<T, O: Observer<T>>(a: Signal<T, O>, b: Signal<T, O>, t: Option<u64>) -> bool {
    let history = tail(b.events(), a.events().len() as int);
    &&& b.seen().len() == b.calls().len()
    &&& call_ids(b.events()) == b.calls()
    &&& call_values(b.events()) == b.seen()
    &&& all_live(b.entries())
    &&& ids_increasing(b.entries())
    &&& if a.next_id() >= ID_LIMIT {
        &&& t is None
        &&& b.events() == a.events()
        &&& b.entries() == a.entries()
        &&& b.calls() == a.calls()
        &&& b.seen() == a.seen()
        &&& b.cancels() == a.cancels()
        &&& b.next_id() == a.next_id()
    } else if a.value() is None {
        &&& t == Some(a.next_id())
        &&& b.events() == a.events().push(Event::Add(a.next_id()))
        &&& b.entries() == a.entries().push(Entry { id: a.next_id(), deleted: false })
        &&& b.calls() == a.calls()
        &&& b.seen() == a.seen()
        &&& b.cancels() == a.cancels()
        &&& b.next_id() == a.next_id() + 1
    } else {
        &&& b.events().len() >= a.events().len() + 2
        &&& b.events().subrange(0, a.events().len() as int) == a.events()
        &&& history[0] == Event::<T>::Add(a.next_id())
        &&& history[1] == Event::Call(a.next_id(), a.value()->Some_0)
        &&& b.entries() == replay(a.entries(), history, false)
        &&& calls_only_live(a.entries(), history, false)
        &&& leaves_own(history)
        &&& forall|m: int|
            0 <= m < history.len() && (#[trigger] history[m]) is Call ==> history[m]->Call_1
                == a.value()->Some_0
        &&& b.cancels().len() >= a.cancels().len()
        &&& b.cancels().subrange(0, a.cancels().len() as int) == a.cancels()
        &&& kept_unless_cancelled(
            a.entries().push(Entry { id: a.next_id(), deleted: false }),
            b.entries(),
            since(b.cancels(), a.cancels().len() as int),
        )
        &&& b.seen().subrange(0, a.calls().len() as int) == a.seen()
        &&& forall|m: int|
            a.calls().len() <= m < b.seen().len() ==> #[trigger] b.seen()[m] == a.value()->Some_0
        &&& t == Some(a.next_id())
        &&& b.next_id() > a.next_id()
        &&& b.calls().len() > a.calls().len()
        &&& b.calls().subrange(0, a.calls().len() as int) == a.calls()
        &&& b.calls()[a.calls().len() as int] == a.next_id()
        &&& forall|m: int|
            a.calls().len() < m < b.calls().len() ==> #[trigger] b.calls()[m] > a.next_id()
    }
}

impl<T, O: Observer<T>> Signal<T, O> {
    /// Changes the value in place with `f` and notifies every subscriber.
    pub fn try_mutate<F: FnOnce(&mut T)>(&mut self, f: F) -> (r: Result<(), SignalUpdatingError>)
        requires
            old(self).wf(),
            old(self).value() is Some,
            forall|x: &mut T| f.requires((x,)),
        ensures
            r is Ok,
            final(self).wf(),
            final(self).value() is Some,
            exists|x: &mut T|
                *x == old(self).value()->Some_0 && *final(x) == final(self).value()->Some_0
                    && f.ensures((x,), ()),
            final(self).next_id() >= old(self).next_id(),
            reached_all(*old(self), *final(self)),
    {
        if self.raw.state != SignalState::Idling {
            return Err(SignalUpdatingError);
        }
        let mut v = self.value.take().unwrap();
        f(&mut v);
        self.raw.state = SignalState::Mutating;
        self.value = Some(v);
        self.notify_all();
        Ok(())
    }

    /// Changes the value in place with `f` and notifies every subscriber.
    pub fn mutate<F: FnOnce(&mut T)>(&mut self, f: F)
        requires
            old(self).wf(),
            old(self).value() is Some,
            forall|x: &mut T| f.requires((x,)),
        ensures
            final(self).wf(),
            final(self).value() is Some,
            exists|x: &mut T|
                *x == old(self).value()->Some_0 && *final(x) == final(self).value()->Some_0
                    && f.ensures((x,), ()),
            final(self).next_id() >= old(self).next_id(),
            reached_all(*old(self), *final(self)),
    {
        let r = self.try_mutate(f);
        r.unwrap();
    }
}

/// The writable handle of a cell; `signal` gives the cell itself, which can
/// be read and subscribed to.
pub struct Mutable<T, O>(Signal<T, O>);

impl<T, O: Observer<T>> Mutable<T, O> {
    pub closed spec fn cell(&self) -> Signal<T, O> {
        self.0
    }

    /// A cell holding `initial_value`, with no subscriber.
    pub fn new(initial_value: T) -> (r: Self)
        ensures
            r.cell().wf(),
            r.cell().value() == Some(initial_value),
            r.cell().entries() == Seq::<Entry>::empty(),
            r.cell().next_id() == 1,
            r.cell().calls() == Seq::<u64>::empty(),
            r.cell().seen() == Seq::<T>::empty(),
            r.cell().cancels() == Seq::<u64>::empty(),
            r.cell().events() == Seq::<Event<T>>::empty(),
    {
        Mutable(Signal::new(initial_value))
    }

    /// A cell that holds no value until its first write.
    pub fn uninit() -> (r: Self)
        ensures
            r.cell().wf(),
            r.cell().value() is None,
            r.cell().entries() == Seq::<Entry>::empty(),
            r.cell().next_id() == 1,
            r.cell().calls() == Seq::<u64>::empty(),
            r.cell().seen() == Seq::<T>::empty(),
            r.cell().cancels() == Seq::<u64>::empty(),
            r.cell().events() == Seq::<Event<T>>::empty(),
    {
        Mutable(Signal::uninit())
    }

    pub fn signal(&self) -> (r: &Signal<T, O>)
        ensures
            *r == self.cell(),
    {
        &self.0
    }

    pub fn try_set(&mut self, new_value: T) -> (r: Result<(), SignalUpdatingError>)
        requires
            old(self).cell().wf(),
        ensures
            r is Ok,
            final(self).cell().wf(),
            final(self).cell().value() == Some(new_value),
            final(self).cell().next_id() >= old(self).cell().next_id(),
            reached_all(old(self).cell(), final(self).cell()),
    {
        self.0.try_set(new_value)
    }

    pub fn set(&mut self, new_value: T)
        requires
            old(self).cell().wf(),
        ensures
            final(self).cell().wf(),
            final(self).cell().value() == Some(new_value),
            final(self).cell().next_id() >= old(self).cell().next_id(),
            reached_all(old(self).cell(), final(self).cell()),
    {
        self.0.set(new_value)
    }

    pub fn try_mutate<F: FnOnce(&mut T)>(&mut self, mutate: F) -> (r: Result<
        (),
        SignalUpdatingError,
    >)
        requires
            old(self).cell().wf(),
            old(self).cell().value() is Some,
            forall|x: &mut T| mutate.requires((x,)),
        ensures
            r is Ok,
            final(self).cell().wf(),
            final(self).cell().value() is Some,
            exists|x: &mut T|
                *x == old(self).cell().value()->Some_0 && *final(x) == final(self).cell().value()->Some_0
                    && mutate.ensures((x,), ()),
            final(self).cell().next_id() >= old(self).cell().next_id(),
            reached_all(old(self).cell(), final(self).cell()),
    {
        self.0.try_mutate(mutate)
    }

    pub fn mutate<F: FnOnce(&mut T)>(&mut self, mutate: F)
        requires
            old(self).cell().wf(),
            old(self).cell().value() is Some,
            forall|x: &mut T| mutate.requires((x,)),
        ensures
            final(self).cell().wf(),
            final(self).cell().value() is Some,
            exists|x: &mut T|
                *x == old(self).cell().value()->Some_0 && *final(x) == final(self).cell().value()->Some_0
                    && mutate.ensures((x,), ()),
            final(self).cell().next_id() >= old(self).cell().next_id(),
            reached_all(old(self).cell(), final(self).cell()),
    {
        self.0.mutate(mutate)
    }

    pub fn for_each(&mut self, notify: O) -> (r: Unsubscriber)
        requires
            old(self).cell().wf(),
        ensures
            final(self).cell().wf(),
            final(self).cell().value() == old(self).cell().value(),
            subscribed(old(self).cell(), final(self).cell(), r.target()),
    {
        self.0.for_each(notify)
    }

    pub fn for_each_forever(&mut self, notify: O)
        requires
            old(self).cell().wf(),
        ensures
            final(self).cell().wf(),
            final(self).cell().value() == old(self).cell().value(),
            exists|t: Option<u64>| subscribed(old(self).cell(), final(self).cell(), t),
    {
        self.0.for_each_forever(notify)
    }

    /// Cancels `unsubscriber` on this cell.
    pub fn unsubscribe(&mut self, unsubscriber: &mut Unsubscriber)
        requires
            old(self).cell().wf(),
        ensures
            final(unsubscriber).target() is None,
            final(self).cell().wf(),
            final(self).cell().entries() == match old(unsubscriber).target() {
                Some(id) => cancelled(old(self).cell().entries(), id, false),
                None => old(self).cell().entries(),
            },
            final(self).cell().value() == old(self).cell().value(),
    {
        unsubscriber.unsubscribe(&mut self.0)
    }
}

/// Identifiers handed out by successive subscriptions on one cell strictly
/// increase, so none is handed out twice. Between the two subscriptions any
/// operation may have run: every one of them leaves `next_id` where it was
/// or moves it up (cancellations included), which is all this asks.
pub proof fn lemma_ids_increase<T, O: Observer<T>>(
    a: Signal<T, O>,
    b: Signal<T, O>,
    first: u64,
    c: Signal<T, O>,
    d: Signal<T, O>,
    second: u64,
)
    requires
        subscribed(a, b, Some(first)),
        c.next_id() >= b.next_id(),
        subscribed(c, d, Some(second)),
    ensures
        first < second,
        second < d.next_id(),
{
}

/// After a write, every subscriber in the registry (those that were there,
/// were not cancelled, and those subscribed during the pass itself) was
/// called exactly once by that write's pass, with the new value.
pub proof fn lemma_pass_calls_each_once<T, O: Observer<T>>(a: Signal<T, O>, s: Signal<T, O>, k: int)
    requires
        reached_all(a, s),
        0 <= k < s.entries().len(),
    ensures
        exists|m: int|
            a.calls().len() <= m < s.calls().len() && s.calls()[m] == s.entries()[k].id
                && s.seen()[m] == s.value()->Some_0,
        forall|m1: int, m2: int|
            a.calls().len() <= m1 < s.calls().len() && a.calls().len() <= m2 < s.calls().len()
                && s.calls()[m1] == s.entries()[k].id && s.calls()[m2] == s.entries()[k].id
                ==> m1 == m2,
{
    let lo = a.calls().len() as int;
    let sub = s.calls().subrange(lo, s.calls().len() as int);
    let id = s.entries()[k].id;
    assert(sub.contains(id));
    let w = choose|w: int| 0 <= w < sub.len() && sub[w] == id;
    assert(s.calls()[lo + w] == id);
    assert(s.seen()[lo + w] == s.value()->Some_0);
    assert forall|m1: int, m2: int|
        lo <= m1 < s.calls().len() && lo <= m2 < s.calls().len() && s.calls()[m1] == id
            && s.calls()[m2] == id implies m1 == m2 by {
        assert(sub[m1 - lo] == id && sub[m2 - lo] == id);
        if m1 < m2 {
            assert(sub[m1 - lo] < sub[m2 - lo]);
        } else if m2 < m1 {
            assert(sub[m2 - lo] < sub[m1 - lo]);
        }
    }
}

/// A write's pass calls every subscriber registered before the write unless
/// a callback of that pass asked to cancel it; so a cancellation made during
/// the pass takes out only the subscriber it names.
pub proof fn lemma_write_reaches_uncancelled<T, O: Observer<T>>(
    a: Signal<T, O>,
    s: Signal<T, O>,
    k: int,
)
    requires
        reached_all(a, s),
        0 <= k < a.entries().len(),
        !since(s.cancels(), a.cancels().len() as int).contains(a.entries()[k].id),
    ensures
        since(s.calls(), a.calls().len() as int).contains(a.entries()[k].id),
        has_id(s.entries(), a.entries()[k].id),
{
    let id = a.entries()[k].id;
    assert(has_id(s.entries(), id));
    let j = choose|j: int| 0 <= j < s.entries().len() && s.entries()[j].id == id;
    assert(s.calls().subrange(a.calls().len() as int, s.calls().len() as int).contains(
        s.entries()[j].id,
    ));
}

/// A subscriber added by a callback during a write's pass, and not cancelled
/// later in that pass (by another callback or by its own), is in the registry afterwards and was called exactly
/// once by that pass, with the new value.
pub proof fn lemma_added_in_pass_reached<T, O: Observer<T>>(a: Signal<T, O>, s: Signal<T, O>, m: int, id: u64)
    requires
        reached_all(a, s),
        0 <= m < tail(s.events(), a.events().len() as int).len(),
        tail(s.events(), a.events().len() as int)[m] == Event::<T>::Add(id),
        forall|j: int|
            m < j < tail(s.events(), a.events().len() as int).len() ==> #[trigger] tail(
                s.events(),
                a.events().len() as int,
            )[j] != Event::<T>::Drop(id) && tail(s.events(), a.events().len() as int)[j]
                != Event::<T>::Leave(id),
    ensures
        has_id(s.entries(), id),
        exists|c: int|
            a.calls().len() <= c < s.calls().len() && s.calls()[c] == id && s.seen()[c]
                == s.value()->Some_0,
        forall|c1: int, c2: int|
            a.calls().len() <= c1 < s.calls().len() && a.calls().len() <= c2 < s.calls().len()
                && s.calls()[c1] == id && s.calls()[c2] == id ==> c1 == c2,
{
    broadcast use vstd::seq_lib::group_filter_ensures;

    let h = tail(s.events(), a.events().len() as int);
    let r = replay(a.entries(), h, true);
    lemma_added_stays_live(a.entries(), h, m, id, true);
    let k = choose|k: int| 0 <= k < r.len() && r[k].id == id && !r[k].deleted;
    assert(s.entries().contains(r[k]));
    let j = choose|j: int| 0 <= j < s.entries().len() && s.entries()[j] == r[k];
    assert(s.entries()[j].id == id);
    lemma_pass_calls_each_once(a, s, j);
}

/// Something that can be watched: a cell, or a plain value that never changes.
pub trait Value<T, O: Observer<T>> {
    /// Whether `for_each` may run on it.
    spec fn ready(&self) -> bool;

    /// Shows `observer` the value now and, for a cell, at every later write.
    fn for_each(&mut self, observer: O) -> (r: Unsubscriber)
        requires
            <Self as Value<T, O>>::ready(old(self)),
    ;
}

impl<T, O: Observer<T>> Value<T, O> for T {
    open spec fn ready(&self) -> bool {
        true
    }

    /// Calls `observer` once with the value. There is no cell behind it, so
    /// what the call asks through its scope has no effect, and the capability
    /// returned has none either.
    fn for_each(&mut self, observer: O) -> (r: Unsubscriber)
        ensures
            r.target() is None,
    {
        let mut observer = observer;
        let mut scope = Scope::new(SignalState::Subscribing, 0, ID_LIMIT);
        observer.notify(&*self, &mut scope);
        Unsubscriber::inert()
    }
}

impl<T, O: Observer<T>> Value<T, O> for Signal<T, O> {
    open spec fn ready(&self) -> bool {
        self.wf()
    }

    fn for_each(&mut self, observer: O) -> (r: Unsubscriber)
        ensures
            final(self).wf(),
            subscribed(*old(self), *final(self), r.target()),
    {
        Signal::for_each(self, observer)
    }
}

} // verus!
