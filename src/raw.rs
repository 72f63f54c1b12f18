use vstd::prelude::*;

verus! {

/// The counter of identifiers stops here: this value is never handed out,
/// so identifiers of one cell never repeat.
pub const ID_LIMIT: u64 = 18446744073709551615;

/// What a cell is doing at a given moment.
#[derive(Clone, Copy, PartialEq, Eq, Debug, Structural)]
pub enum SignalState {
    /// Nothing runs on the cell.
    Idling,
    /// The value was just changed and the subscribers are being notified.
    Mutating,
    /// A new subscriber is being shown the current value.
    Subscribing,
}

/// One registry entry as the contracts see it: its identifier, and whether it
/// was cancelled while a notification pass was running (a tombstone).
pub struct Entry {
    pub id: u64,
    pub deleted: bool,
}

/// Identifiers strictly increase along the registry.
pub open spec fn ids_increasing(s: Seq<Entry>) -> bool {
    forall|i: int, j: int| 0 <= i < j < s.len() ==> s[i].id < s[j].id
}

/// No entry of the registry is a tombstone.
pub open spec fn all_live(s: Seq<Entry>) -> bool {
    forall|k: int| 0 <= k < s.len() ==> !s[k].deleted
}

pub open spec fn has_id(s: Seq<Entry>, id: u64) -> bool {
    exists|k: int| 0 <= k < s.len() && s[k].id == id
}

/// The position of the entry with identifier `id`, or -1.
pub open spec fn position_of(s: Seq<Entry>, id: u64) -> int {
    if has_id(s, id) {
        choose|k: int| 0 <= k < s.len() && s[k].id == id
    } else {
        -1
    }
}

/// The registry after cancelling `id`: during a notification pass the entry
/// becomes a tombstone, otherwise it is removed; an unknown `id` changes nothing.
pub open spec fn cancelled(s: Seq<Entry>, id: u64, mutating: bool) -> Seq<Entry> {
    if has_id(s, id) {
        if mutating {
            s.update(position_of(s, id), Entry { id, deleted: true })
        } else {
            s.remove(position_of(s, id))
        }
    } else {
        s
    }
}

/// The registry with every tombstone taken out, the order of the rest kept.
pub open spec fn swept(s: Seq<Entry>) -> Seq<Entry> {
    s.filter(|e: Entry| !e.deleted)
}

/// With identifiers in increasing order, the position of an identifier is the
/// one index that holds it.
pub proof fn lemma_position_unique(s: Seq<Entry>, k: int)
    requires
        ids_increasing(s),
        0 <= k < s.len(),
    ensures
        has_id(s, s[k].id),
        position_of(s, s[k].id) == k,
{
    let p = position_of(s, s[k].id);
    assert(0 <= p < s.len() && s[p].id == s[k].id);
}

/// One subscription in the registry, with the callback it owns. The callback
/// is absent only while it runs.
pub struct Notifier<O> {
    pub(crate) id: u64,
    pub(crate) deleted: bool,
    pub(crate) callback: Option<O>,
}

impl<O> Notifier<O> {
    pub(crate) open spec fn entry(&self) -> Entry {
        Entry { id: self.id, deleted: self.deleted }
    }

    pub(crate) fn id(&self) -> (r: u64)
        ensures
            r == self.id,
    {
        self.id
    }

    pub(crate) fn deleted(&self) -> (r: bool)
        ensures
            r == self.deleted,
    {
        self.deleted
    }
}

pub(crate) open spec fn entries_of<O>(v: Seq<Notifier<O>>) -> Seq<Entry> {
    v.map_values(|n: Notifier<O>| n.entry())
}

/// The registry of a cell and its state flag. Identifiers are issued from
/// `next_id` upward; `needs_delete` says that tombstones wait for a sweep.
pub struct RawSignal<O> {
    pub(crate) state: SignalState,
    pub(crate) subscribers: Vec<Notifier<O>>,
    pub(crate) next_id: u64,
    pub(crate) needs_delete: bool,
}

impl<O> RawSignal<O> {
    pub(crate) open spec fn entries(&self) -> Seq<Entry> {
        entries_of(self.subscribers@)
    }

    /// Every entry holds its callback.
    pub(crate) open spec fn all_held(&self) -> bool {
        forall|k: int| 0 <= k < self.subscribers@.len() ==> (#[trigger] self.subscribers@[k]).callback is Some
    }

    /// Every entry but the one at `i` holds its callback.
    pub(crate) open spec fn held_except(&self, i: int) -> bool {
        forall|k: int| 0 <= k < self.subscribers@.len() && k != i ==> (
        #[trigger] self.subscribers@[k]).callback is Some
    }

    /// Holds at every moment: sorted unique identifiers below the counter,
    /// and tombstones only during a notification pass that will sweep them.
    pub(crate) open spec fn wf(&self) -> bool {
        &&& ids_increasing(self.entries())
        &&& forall|k: int|
            0 <= k < self.entries().len() ==> 0 < #[trigger] self.entries()[k].id
                < self.next_id
        &&& 1 <= self.next_id <= ID_LIMIT
        &&& !self.needs_delete ==> all_live(self.entries())
        &&& self.state != SignalState::Mutating ==> !self.needs_delete
    }

    pub(crate) fn new() -> (r: Self)
        ensures
            r.wf(),
            r.entries() == Seq::<Entry>::empty(),
            r.next_id == 1,
            r.state == SignalState::Idling,
    {
        let r = RawSignal {
            state: SignalState::Idling,
            subscribers: Vec::new(),
            next_id: 1,
            needs_delete: false,
        };
        assert(r.entries() =~= Seq::<Entry>::empty());
        r
    }

    /// Appends a live entry for `callback` under `id`, provided `id` is not
    /// below the counter and not the limit; the counter then moves past `id`.
    pub(crate) fn register(&mut self, id: u64, callback: O) -> (r: bool)
        requires
            old(self).wf(),
        ensures
            final(self).wf(),
            r == (old(self).next_id <= id < ID_LIMIT),
            r ==> final(self).entries() == old(self).entries().push(Entry { id, deleted: false }),
            r ==> final(self).subscribers@ == old(self).subscribers@.push(
                Notifier { id, deleted: false, callback: Some(callback) },
            ),
            !r ==> final(self).subscribers@ == old(self).subscribers@,
            r ==> final(self).next_id == id + 1,
            !r ==> final(self).entries() == old(self).entries(),
            !r ==> final(self).next_id == old(self).next_id,
            final(self).state == old(self).state,
            final(self).needs_delete == old(self).needs_delete,
            old(self).all_held() ==> final(self).all_held(),
    {
        if self.next_id <= id && id < ID_LIMIT {
            self.subscribers.push(Notifier { id, deleted: false, callback: Some(callback) });
            self.next_id = id + 1;
            assert(self.entries() =~= old(self).entries().push(Entry { id, deleted: false }));
            true
        } else {
            false
        }
    }

    /// Lends out the callback at `k` while it runs.
    pub(crate) fn take_callback(&mut self, k: usize) -> (r: Option<O>)
        requires
            old(self).wf(),
            k < old(self).entries().len(),
        ensures
            old(self).all_held() ==> r is Some && final(self).held_except(k as int),
            r == old(self).subscribers@[k as int].callback,
            final(self).subscribers@ == old(self).subscribers@.update(
                k as int,
                Notifier {
                    id: old(self).subscribers@[k as int].id,
                    deleted: old(self).subscribers@[k as int].deleted,
                    callback: None,
                },
            ),
            final(self).wf(),
            final(self).entries() == old(self).entries(),
            final(self).next_id == old(self).next_id,
            final(self).state == old(self).state,
            final(self).needs_delete == old(self).needs_delete,
    {
        let r = self.subscribers[k].callback.take();
        assert(self.entries() =~= old(self).entries());
        assert(self.subscribers@ =~= old(self).subscribers@.update(
            k as int,
            Notifier {
                id: old(self).subscribers@[k as int].id,
                deleted: old(self).subscribers@[k as int].deleted,
                callback: None,
            },
        ));
        assert(old(self).subscribers@[k as int].callback is Some ==> r is Some);
        r
    }

    /// Gives the callback back to the entry at `k`.
    pub(crate) fn put_callback(&mut self, k: usize, callback: O)
        requires
            old(self).wf(),
            k < old(self).entries().len(),
        ensures
            old(self).held_except(k as int) ==> final(self).all_held(),
            final(self).subscribers@ == old(self).subscribers@.update(
                k as int,
                Notifier {
                    id: old(self).subscribers@[k as int].id,
                    deleted: old(self).subscribers@[k as int].deleted,
                    callback: Some(callback),
                },
            ),
            final(self).wf(),
            final(self).entries() == old(self).entries(),
            final(self).next_id == old(self).next_id,
            final(self).state == old(self).state,
            final(self).needs_delete == old(self).needs_delete,
    {
        self.subscribers[k].callback = Some(callback);
        assert(self.entries() =~= old(self).entries());
        assert(self.subscribers@ =~= old(self).subscribers@.update(
            k as int,
            Notifier {
                id: old(self).subscribers@[k as int].id,
                deleted: old(self).subscribers@[k as int].deleted,
                callback: Some(callback),
            },
        ));
    }

    /// Binary search for the entry holding `id`.
    pub(crate) fn find(&self, id: u64) -> (r: Option<usize>)
        requires
            self.wf(),
        ensures
            r is Some <==> has_id(self.entries(), id),
            r matches Some(k) ==> k == position_of(self.entries(), id) && k
                < self.entries().len(),
    {
        let mut lo: usize = 0;
        let mut hi: usize = self.subscribers.len();
        while lo < hi
            invariant
                self.wf(),
                lo <= hi <= self.subscribers.len(),
                forall|k: int| 0 <= k < lo ==> #[trigger] self.entries()[k].id < id,
                forall|k: int| hi <= k < self.entries().len() ==> #[trigger] self.entries()[k].id > id,
            decreases hi - lo,
        {
            let mid = lo + (hi - lo) / 2;
            let mid_id = self.subscribers[mid].id();
            if mid_id == id {
                proof {
                    lemma_position_unique(self.entries(), mid as int);
                }
                return Some(mid);
            } else if mid_id < id {
                lo = mid + 1;
            } else {
                hi = mid;
            }
        }
        proof {
            if has_id(self.entries(), id) {
                let k = choose|k: int| 0 <= k < self.entries().len() && self.entries()[k].id == id;
                assert(self.entries()[k].id == id);
            }
        }
        None
    }

    /// Cancels `id`: a tombstone during a notification pass, else removal.
    pub(crate) fn unsubscribe(&mut self, id: u64)
        requires
            old(self).wf(),
        ensures
            final(self).wf(),
            final(self).entries() == cancelled(
                old(self).entries(),
                id,
                old(self).state == SignalState::Mutating,
            ),
            final(self).next_id == old(self).next_id,
            final(self).state == old(self).state,
            final(self).needs_delete == (old(self).needs_delete || (has_id(old(self).entries(), id)
                && old(self).state == SignalState::Mutating)),
            !has_id(old(self).entries(), id) ==> final(self).subscribers@ == old(self).subscribers@,
            has_id(old(self).entries(), id) && old(self).state == SignalState::Mutating ==> final(self).subscribers@ == old(self).subscribers@.update(
                position_of(old(self).entries(), id),
                Notifier {
                    id,
                    deleted: true,
                    callback: old(self).subscribers@[position_of(old(self).entries(), id)].callback,
                },
            ),
            has_id(old(self).entries(), id) && old(self).state != SignalState::Mutating ==> final(self).subscribers@ == old(self).subscribers@.remove(position_of(old(self).entries(), id)),
            old(self).all_held() ==> final(self).all_held(),
    {
        let found = self.find(id);
        if let Some(index) = found {
            let ghost s = old(self).entries();
            if self.state == SignalState::Mutating {
                self.subscribers[index].deleted = true;
                self.needs_delete = true;
                assert(old(self).subscribers@[index as int].id == id);
                assert(self.subscribers@ =~= old(self).subscribers@.update(
                    index as int,
                    Notifier {
                        id,
                        deleted: true,
                        callback: old(self).subscribers@[index as int].callback,
                    },
                ));
                assert(self.entries() =~= s.update(index as int, Entry { id, deleted: true }));
            } else {
                let _gone = self.subscribers.remove(index);
                assert(self.entries() =~= s.remove(index as int));
                assert(ids_increasing(self.entries())) by {
                    assert forall|i: int, j: int|
                        0 <= i < j < self.entries().len() implies self.entries()[i].id
                        < self.entries()[j].id by {
                        let i2 = if i < index { i } else { i + 1 };
                        let j2 = if j < index { j } else { j + 1 };
                        assert(self.entries()[i] == s[i2]);
                        assert(self.entries()[j] == s[j2]);
                    }
                }
                assert forall|k: int| 0 <= k < self.entries().len() implies 0
                    < #[trigger] self.entries()[k].id < self.next_id by {
                    let k2 = if k < index { k } else { k + 1 };
                    assert(self.entries()[k] == s[k2]);
                }
                assert(all_live(s) ==> all_live(self.entries())) by {
                    if all_live(s) {
                        assert forall|k: int| 0 <= k < self.entries().len() implies !(
                        #[trigger] self.entries()[k]).deleted by {
                            let k2 = if k < index { k } else { k + 1 };
                            assert(self.entries()[k] == s[k2]);
                        }
                    }
                }
            }
        }
    }

    /// Takes every tombstone out of the registry, keeping the order of the rest.
    pub(crate) fn sweep(&mut self)
        requires
            old(self).wf(),
        ensures
            final(self).wf(),
            final(self).entries() == swept(old(self).entries()),
            all_live(final(self).entries()),
            !final(self).needs_delete,
            final(self).next_id == old(self).next_id,
            final(self).state == old(self).state,
            old(self).all_held() ==> final(self).all_held(),
            final(self).subscribers@ == old(self).subscribers@.filter(|n: Notifier<O>| !n.deleted),
    {
        let ghost s = old(self).entries();
        let ghost sv = old(self).subscribers@;
        let mut rest: Vec<Notifier<O>> = Vec::new();
        std::mem::swap(&mut rest, &mut self.subscribers);
        let ghost mut done: int = 0;
        assert(self.entries() =~= swept(s.take(0)));
        proof {
            reveal(Seq::filter);
            assert(sv.take(0).filter(|n: Notifier<O>| !n.deleted) =~= Seq::<Notifier<O>>::empty());
            assert(rest@ =~= sv.skip(0));
        }
        while rest.len() > 0
            invariant
                0 <= done <= s.len(),
                entries_of(rest@) == s.skip(done),
                self.entries() == swept(s.take(done)),
                sv == old(self).subscribers@,
                sv.len() == s.len(),
                rest@ == sv.skip(done),
                self.subscribers@ == sv.take(done).filter(|n: Notifier<O>| !n.deleted),
                old(self).all_held() ==> self.all_held(),
                old(self).all_held() ==> forall|k: int| 0 <= k < rest@.len() ==> (#[trigger] rest@[k]).callback is Some,
                self.next_id == old(self).next_id,
                self.state == old(self).state,
                ids_increasing(s),
                forall|k: int| 0 <= k < s.len() ==> 0 < #[trigger] s[k].id < self.next_id,
            decreases rest.len(),
        {
            let ghost before = rest@;
            proof {
                assert(entries_of(before).len() == before.len());
                assert(entries_of(before)[0] == s.skip(done)[0]);
            }
            let n = rest.remove(0);
            proof {
                assert(n.entry() == s[done]);
                assert(rest@ == before.remove(0));
                assert forall|k: int| 0 <= k < rest@.len() implies #[trigger] entries_of(rest@)[k] == s.skip(done + 1)[k] by {
                    assert(rest@[k] == before[k + 1]);
                    assert(entries_of(before)[k + 1] == s.skip(done)[k
                        + 1]);
                }
                assert(entries_of(rest@) =~= s.skip(done + 1));
                lemma_swept_step(s, done);
                assert(n == sv[done]);
                assert(rest@ =~= sv.skip(done + 1));
                reveal(Seq::filter);
                assert(sv.take(done + 1).drop_last() =~= sv.take(done));
            }
            if !n.deleted() {
                self.subscribers.push(n);
            }
            proof {
                assert(self.entries() =~= swept(s.take(done + 1)));
                done = done + 1;
            }
        }
        assert(s.take(done) =~= s);
        assert(sv.take(done) =~= sv);
        self.needs_delete = false;
        proof {
            lemma_swept_wf(s, self.next_id);
        }
    }
}

/// One more entry of a prefix: it is kept by the sweep exactly when it is live.
pub proof fn lemma_swept_step(s: Seq<Entry>, i: int)
    requires
        0 <= i < s.len(),
    ensures
        swept(s.take(i + 1)) == if s[i].deleted {
            swept(s.take(i))
        } else {
            swept(s.take(i)).push(s[i])
        },
{
    reveal(Seq::filter);
    assert(s.take(i + 1).drop_last() =~= s.take(i));
}

/// The sweep keeps the identifiers in increasing order, drawn from the
/// registry, and leaves no tombstone.
pub proof fn lemma_swept_wf(s: Seq<Entry>, bound: u64)
    requires
        ids_increasing(s),
        forall|k: int| 0 <= k < s.len() ==> 0 < #[trigger] s[k].id < bound,
    ensures
        ids_increasing(swept(s)),
        all_live(swept(s)),
        forall|k: int| 0 <= k < swept(s).len() ==> s.contains(#[trigger] swept(s)[k]),
        forall|k: int| 0 <= k < swept(s).len() ==> 0 < #[trigger] swept(s)[k].id < bound,
    decreases s.len(),
{
    reveal(Seq::filter);
    if s.len() > 0 {
        let d = s.drop_last();
        assert forall|k: int| 0 <= k < d.len() implies 0 < #[trigger] d[k].id < bound by {
            assert(d[k] == s[k]);
        }
        lemma_swept_wf(d, bound);
        let sub = swept(d);
        assert forall|k: int| 0 <= k < sub.len() implies s.contains(#[trigger] sub[k])
            && sub[k].id < s.last().id by {
            assert(d.contains(sub[k]));
            let j = choose|j: int| 0 <= j < d.len() && d[j] == sub[k];
            assert(s[j] == sub[k]);
        }
        assert(s.contains(s.last())) by {
            assert(s[s.len() - 1] == s.last());
        }
    }
}

/// Every entry the sweep keeps comes from the registry it swept.
pub proof fn lemma_swept_from(s: Seq<Entry>)
    ensures
        forall|k: int| 0 <= k < swept(s).len() ==> s.contains(#[trigger] swept(s)[k]),
    decreases s.len(),
{
    reveal(Seq::filter);
    if s.len() > 0 {
        let d = s.drop_last();
        lemma_swept_from(d);
        assert forall|k: int| 0 <= k < swept(d).len() implies s.contains(#[trigger] swept(d)[k]) by {
            assert(d.contains(swept(d)[k]));
            let j = choose|j: int| 0 <= j < d.len() && d[j] == swept(d)[k];
            assert(s[j] == swept(d)[k]);
        }
        assert(s[s.len() - 1] == s.last());
    }
}

/// Cancelling a subscription twice has the effect of cancelling it once,
/// whether a notification pass runs or not.
pub proof fn lemma_cancel_idempotent(s: Seq<Entry>, id: u64, mutating: bool)
    requires
        ids_increasing(s),
    ensures
        cancelled(cancelled(s, id, mutating), id, mutating) == cancelled(s, id, mutating),
{
    if has_id(s, id) {
        let p = position_of(s, id);
        assert(0 <= p < s.len() && s[p].id == id);
        let t = cancelled(s, id, mutating);
        if mutating {
            assert(t[p].id == id);
            assert(ids_increasing(t)) by {
                assert forall|i: int, j: int| 0 <= i < j < t.len() implies t[i].id < t[j].id by {
                    assert(t[i].id == s[i].id && t[j].id == s[j].id);
                }
            }
            lemma_position_unique(t, p);
            assert(t.update(p, Entry { id, deleted: true }) =~= t);
        } else {
            assert forall|k: int| 0 <= k < t.len() implies t[k].id != id by {
                let k2 = if k < p { k } else { k + 1 };
                assert(t[k] == s[k2]);
                assert(k2 != p);
            }
        }
    }
}

/// A cancellation made during a notification pass keeps every position and
/// every other entry as it was, so the pass still reaches the entries after
/// it; the sweep at the end of the pass then takes the cancelled entry out
/// and keeps every other live entry.
pub proof fn lemma_deferred_deletion(s: Seq<Entry>, id: u64)
    requires
        ids_increasing(s),
        has_id(s, id),
    ensures
        cancelled(s, id, true).len() == s.len(),
        forall|k: int|
            0 <= k < s.len() && s[k].id != id ==> #[trigger] cancelled(s, id, true)[k] == s[k],
        !has_id(swept(cancelled(s, id, true)), id),
        forall|k: int|
            0 <= k < s.len() && s[k].id != id && !s[k].deleted ==> has_id(
                swept(cancelled(s, id, true)),
                #[trigger] s[k].id,
            ),
{
    broadcast use vstd::seq_lib::group_filter_ensures;

    let p = position_of(s, id);
    assert(0 <= p < s.len() && s[p].id == id);
    let t = cancelled(s, id, true);
    let u = swept(t);
    lemma_swept_from(t);
    assert forall|k: int| 0 <= k < s.len() && s[k].id != id implies #[trigger] t[k] == s[k] by {
        assert(k != p);
    }
    if has_id(u, id) {
        let j = choose|j: int| 0 <= j < u.len() && u[j].id == id;
        assert(!u[j].deleted);
        assert(t.contains(u[j]));
        let q = choose|q: int| 0 <= q < t.len() && t[q] == u[j];
        if q != p {
            assert(t[q] == s[q]);
            assert(s[q].id != s[p].id);
        }
    }
    assert forall|k: int|
        0 <= k < s.len() && s[k].id != id && !s[k].deleted implies has_id(u, #[trigger] s[k].id) by {
        assert(t[k] == s[k]);
        assert(u.contains(t[k]));
        let j = choose|j: int| 0 <= j < u.len() && u[j] == t[k];
        assert(u[j].id == s[k].id);
    }
}

/// Cancelling `id` leaves every other identifier in the registry; during a
/// pass it keeps every position and makes a tombstone of `id`'s entry only.
pub proof fn lemma_cancel_keeps_others(s: Seq<Entry>, id: u64, mutating: bool)
    requires
        ids_increasing(s),
    ensures
        forall|k: int|
            0 <= k < s.len() && s[k].id != id ==> has_id(cancelled(s, id, mutating), #[trigger] s[k].id),
        mutating ==> cancelled(s, id, mutating).len() == s.len(),
        mutating ==> forall|k: int|
            0 <= k < s.len() ==> (#[trigger] cancelled(s, id, mutating)[k]).id == s[k].id && (
            cancelled(s, id, mutating)[k].deleted ==> s[k].deleted || s[k].id == id),
{
    let t = cancelled(s, id, mutating);
    if has_id(s, id) {
        let p = position_of(s, id);
        assert(0 <= p < s.len() && s[p].id == id);
        assert forall|k: int| 0 <= k < s.len() && s[k].id != id implies has_id(t, #[trigger] s[k].id) by {
            if mutating {
                assert(t[k] == s[k]);
            } else {
                let k2 = if k < p { k } else { k - 1 };
                assert(t[k2] == s[k]);
            }
        }
    } else {
        assert forall|k: int| 0 <= k < s.len() && s[k].id != id implies has_id(t, #[trigger] s[k].id) by {
            assert(t[k] == s[k]);
        }
    }
}

} // verus!
