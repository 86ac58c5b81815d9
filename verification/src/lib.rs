//! An in-memory equi-join microbenchmark engine: a fixed-capacity record and
//! table data model with cursor- and view-based scanning, a family of
//! equi-join algorithms each proved to emit the reference join's multiset of
//! merged records, and a benchmark runner that dispatches, times, and
//! summarises each run.

pub mod record;
pub mod model;
pub mod table;
pub mod join;
pub mod parjoin;
pub mod radixjoin;
pub mod runner;

pub use record::Record;
pub use record::JoinError;
pub use record::M;
