//! Errors surfaced by operator construction, row insertion, aggregation
//! and the cooperative cancellation check.
//!
//! No error is retried internally: every failure aborts the current
//! operator's iteration and is surfaced to the enclosing evaluator.

use vstd::prelude::*;

use crate::tuple::Tuple;
use crate::tuple_set::TupleSetIdx;

verus! {

#[derive(Clone, Debug, PartialEq, Eq)]
pub enum Error {
    /// Operator construction ran out of arguments.
    NotEnoughArguments,
    /// Malformed operator arguments, e.g. a keyed scoped dict handed to an
    /// insertion.
    Parse(Vec<u8>),
    /// A target table or association named at construction does not exist.
    TableNotFound(Vec<u8>),
    /// Insert-mode write found the key already present; carries the
    /// offending storage key.
    KeyConflict(Tuple),
    /// A row binding was missing or out of range when a column was
    /// extracted; carries the positional reference that failed.
    Eval(TupleSetIdx),
    /// An aggregate merge or update failed: a non-integer value reached an
    /// integer aggregate, or an accumulator overflowed.
    AggrFailed,
    /// Cooperative cancellation was requested; distinguishable from
    /// ordinary failures so callers can treat it as "stopped by request".
    Cancelled,
}

} // verus!
