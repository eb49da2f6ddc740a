//! References to stored nodes.

use vstd::prelude::*;

verus! {

/// Where a node stands in the store, or that there is no node.
#[derive(Clone, Copy, Debug, PartialEq, Eq, Structural)]
pub struct NodeRef(usize);

impl View for NodeRef {
    type V = Option<nat>;

    closed spec fn view(&self) -> Option<nat> {
        if self.0 == usize::MAX {
            None
        } else {
            Some(self.0 as nat)
        }
    }
}

impl Default for NodeRef {
    /// The reference to no node.
    fn default() -> (node_ref: NodeRef)
        ensures
            node_ref@ is None,
    {
        NodeRef(usize::MAX)
    }
}

impl NodeRef {
    /// The reference to the node at `index`.
    pub fn new(index: usize) -> (node_ref: NodeRef)
        requires
            index != usize::MAX,
        ensures
            node_ref@ == Some(index as nat),
    {
        NodeRef(index)
    }

    /// Whether there is a node.
    pub fn is_valid(&self) -> (valid: bool)
        ensures
            valid == self@ is Some,
    {
        self.0 != usize::MAX
    }

    /// Where the node stands, if there is one.
    pub fn index(&self) -> (index: Option<usize>)
        ensures
            index matches Some(i) ==> self@ == Some(i as nat) && i != usize::MAX,
            index is None ==> self@ is None,
    {
        if self.is_valid() {
            Some(self.0)
        } else {
            None
        }
    }
}

/// A reference is decided by where it leads.
pub proof fn position_decides(a: NodeRef, b: NodeRef)
    requires
        a@ == b@,
    ensures
        a == b,
{
}

} // verus!
