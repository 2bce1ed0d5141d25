//! An in-memory key/value store rebuilt from a sequential log of point-insert
//! and point-delete records, ingested by several independent partitions.
//!
//! Records are handed to partitions by availability, not by key, so a delete
//! may land on a partition that never saw the matching insert.  Such deletions
//! are relayed around a ring of partitions; whatever cannot be delivered when
//! the ring is torn down is reconciled against all partition maps at the end.

use vstd::prelude::*;

pub mod dict;
pub mod key;
pub mod laws;
pub mod parse;
pub mod partition;
pub mod pipeline;
pub mod record;
pub mod ring;

verus! {

/// Configuration for a pipeline run: input path, worker threads, and the
/// capacities of the line queue, the record queue, and the partition count.
#[derive(Clone, Debug)]
pub struct Config {
    /// The path for the data.
    pub path: String,
    /// Limits how many worker threads to use.
    pub threads: u16,
    /// Limits how many read lines may be awaiting to be parsed.
    pub read: u16,
    /// Limits how many parsed lines may be awaiting to be included in the dictionary.
    pub parsed: u16,
    /// Limits how many dictionaries may be built in parallel.
    pub dicts: u16,
}

impl Default for Config {
    fn default() -> (c: Config)
        ensures
            c.path@ == "data_test"@,
            c.threads == 2,
            c.read == 400,
            c.parsed == 400,
            c.dicts == 1,
    {
        Config {
            path: "data_test".to_owned(),
            threads: 2,
            read: 400,
            parsed: 400,
            dicts: 1,
        }
    }
}

/// A failure that aborts a whole run: a malformed record, or an input error
/// reported by the surrounding I/O layer.
#[derive(Clone, Copy, Debug, PartialEq, Eq, Structural)]
pub enum Error {
    ParseError(crate::parse::ParseError),
    IoError,
}

} // verus!
