//! A reactive cell: a value whose writes notify a changing set of
//! subscribers, synchronously and in subscription order.
//!
//! A cell is idle whenever a caller holds it; a write runs a notification
//! pass over the registry, and a subscription first shows the new subscriber
//! the current value. A running callback sees the cell only through a
//! [`Scope`]: writes made there are refused (the cell is busy), while
//! subscriptions and cancellations are recorded and applied as the callback
//! returns. During a pass a cancelled entry becomes a tombstone, skipped by
//! the rest of the pass and swept when it ends; an entry appended during a
//! pass is reached by that same pass.

mod error;
mod raw;
mod scope;
mod signal;

pub use error::{ElementNotFoundError, SignalUninitError, SignalUpdatingError};
pub use raw::{
    all_live, cancelled, has_id, ids_increasing, lemma_cancel_idempotent, lemma_deferred_deletion,
    position_of, swept, Entry, SignalState, ID_LIMIT,
};
pub use scope::{DropUnsubscriber, Observer, Requested, Scope, Unsubscriber};
pub use signal::{
    call_ids, call_values, calls_only_live, leaves_own, increasing, kept_unless_cancelled, lemma_added_in_pass_reached,
    lemma_added_stays_live, lemma_ids_increase, lemma_pass_calls_each_once,
    lemma_write_reaches_uncancelled, live_in, reached_all, replay, since, subscribed, tail, Event,
    Mutable, Signal, Value,
};
