//! The error type surfaced by the store and the tree.

use vstd::prelude::*;

verus! {

/// Errors surfaced by the store: an out-of-range or malformed read or
/// write, an active file with no recoverable meta record, and a directory
/// listing with no log files.
#[derive(Debug, Clone, Copy, PartialEq, Eq, Structural)]
pub enum Error {
    Io,
    MetaRootNotFound,
    NoLogFiles,
}

} // verus!
