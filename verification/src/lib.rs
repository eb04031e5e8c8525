//! Execution core of a graph-oriented, Datalog-style query engine:
//! the byte-sortable tuple model, the key/value builder set and the
//! insertion/upsert operator that commit derived rows into graph storage,
//! and the epoch-partitioned derived-relation store that drives recursive
//! rule evaluation to a fixpoint.

pub mod aggr;
pub mod derived;
pub mod error;
pub mod insert;
pub mod snapshot;
pub mod table;
pub mod tuple;
pub mod tuple_set;
pub mod value;
