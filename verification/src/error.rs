//! Errors of the node store.

use vstd::prelude::*;

verus! {

/// What a node store answers when it cannot do what it was asked.
#[derive(Clone, Copy, Debug, PartialEq, Eq, Structural)]
pub enum StoreError {
    /// The store already holds as many nodes as it may.
    Full,
    /// The store was closed.
    Closed,
}

} // verus!
