//! A persistent, segmented posting-list store: a paged buffer cache over a
//! single segment file, a rotating write-ahead log of extent records, and a
//! segment store that maps terms to byte extents and survives restarts.
//!
//! The segment file and the log files are held as in-memory byte images
//! ([`storage::Disk`]); the surrounding program moves those images to and
//! from real files at the process boundary.
#![verifier::loop_isolation(false)]

use vstd::prelude::*;

pub mod codec;
pub mod journal;
pub mod page;
pub mod storage;
pub mod seg_file;

verus! {

/// The error kinds a store operation can report.
#[derive(Debug, PartialEq, Eq, Structural, Clone, Copy)]
pub enum StoreError {
    /// A term has no recorded extents.
    NotFound,
    /// A payload is larger than one page, or a record is larger than one
    /// log file allows; neither is ever split.
    CapacityExceeded,
    /// Recovery found records whose extents no store could have produced.
    CorruptRecord,
}

} // verus!
