//! Write path of a small log-structured storage engine: a bounded, sorted
//! in-memory table, immutable sorted segments with a binary encoding, and a
//! driver that swaps tables and hands segments off for persistence. The
//! `tree` module holds a standalone set of ordered containers.
use vstd::prelude::*;

pub mod codec;
pub mod db;
pub mod driver;
pub mod order;
pub mod tree;

verus! {

/// Errors that the write path reports to its caller.
#[derive(Debug, PartialEq, Eq, Structural)]
pub enum Error {
    /// The encoder refused to turn a segment into bytes.
    SerializeError,
}

} // verus!
