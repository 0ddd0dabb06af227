//! An embedded document store: append-only binary log files ("handles")
//! grouped into named collections, a streaming frame decoder, an ordered
//! secondary index persisted as an append log, and a periodic-task scheduler.
//!
//! Every piece of logic here is verified.  File and thread plumbing lives
//! outside this crate and talks to it through plain values.

pub mod codec;
pub mod collection;
pub mod database;
pub mod doc;
pub mod handles;
pub mod index;
pub mod schedule;
pub mod reader;

use vstd::prelude::*;

verus! {

/// The single delimiter byte that terminates every frame.
pub const FRAME_DELIMITER: u8 = 0;

} // verus!
