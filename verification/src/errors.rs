//! The errors of the map's operations.
use vstd::prelude::*;

verus! {

/// Why an operation on a tree did not go through.
#[derive(Debug, Clone, Copy, PartialEq, Eq, Structural)]
pub enum Errors {
    /// The key to insert is already bound in the tree.
    DuplicateKey,
    /// The key to look up or to delete is not bound in the tree.
    NoKeyFound,
    /// A step of a deletion that works below a node met the key at that node
    /// itself. Every step is proved to look strictly below the node it is
    /// at, so no operation returns this error.
    MissedStep,
}

} // verus!
