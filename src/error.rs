use vstd::prelude::*;

verus! {

/// A write was attempted while the cell was busy: a mutation, a notification
/// pass or an initial call of a new subscriber was still running on it.
#[derive(Clone, Copy, PartialEq, Eq, Debug, Structural)]
pub struct SignalUpdatingError;

/// A value was read from a cell that has never been written.
#[derive(Clone, Copy, PartialEq, Eq, Debug, Structural)]
pub struct SignalUninitError;

/// No element matched the selectors given to an attach operation.
#[derive(Clone, Copy, PartialEq, Eq, Debug, Structural)]
pub struct ElementNotFoundError;

} // verus!
