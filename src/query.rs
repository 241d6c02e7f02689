//! Query identifiers, the reasons a lookup is started, and query outcomes.
use vstd::prelude::*;

verus! {

/// Represents a unique identifier for a query.
#[derive(Debug, Default, Clone, Copy, PartialEq, Eq, Structural, Hash)]
pub struct QueryId(pub u64);

/// Why a FindNode query was started.
#[derive(Debug, Clone, Copy, PartialEq, Eq, Structural)]
pub enum QueryTrigger {
    Manual,
    Bootstrap,
    GetValue(QueryId),
    PutValue(QueryId),
}

/// The outcome of handing a response to a query.
pub enum QueryState<T, Y> {
    InProgress(T),
    Completed(Y),
}

} // verus!
