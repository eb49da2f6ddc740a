//! The store that the trie's nodes are kept in.

use crate::error::StoreError;
use crate::trie::node::Node;
use crate::trie::node_ref::NodeRef;
use crate::trie::stored;
use crate::trie::stored::NodeView;
use vstd::prelude::*;

verus! {

/// Nodes by their position. What was stored once stays as it is.
#[derive(Debug)]
pub struct TrieDB {
    nodes: Vec<Node>,
    limit: usize,
    open: bool,
}

impl View for TrieDB {
    type V = Seq<NodeView>;

    closed spec fn view(&self) -> Seq<NodeView> {
        Seq::new(self.nodes@.len(), |i: int| self.nodes@[i]@)
    }
}

impl TrieDB {
    /// How many nodes the store may hold.
    pub closed spec fn limit(self) -> nat {
        self.limit as nat
    }

    /// Whether the store can be used.
    pub closed spec fn is_open(self) -> bool {
        self.open
    }

    /// The store holds no more than it may, and every node refers only to nodes that were stored
    /// before it.
    pub open spec fn wf(self) -> bool {
        &&& self@.len() <= self.limit()
        &&& stored::sound_store(self@)
    }

    /// Whether `count` more nodes can be stored.
    pub open spec fn can_store(self, count: nat) -> bool {
        count == 0 || (self.is_open() && self@.len() + count <= self.limit())
    }

    /// What the store answers when it cannot do what it was asked.
    pub open spec fn refusal(self) -> StoreError {
        if self.is_open() {
            StoreError::Full
        } else {
            StoreError::Closed
        }
    }

    /// Whether the store is `earlier` with, at most, more nodes.
    pub open spec fn follows(self, earlier: TrieDB) -> bool {
        &&& self.wf()
        &&& self.limit() == earlier.limit()
        &&& self.is_open() == earlier.is_open()
        &&& stored::grown(earlier@, self@)
    }

    /// An empty store.
    pub fn new() -> (db: TrieDB)
        ensures
            db.wf(),
            db.is_open(),
            db@ == Seq::<NodeView>::empty(),
            db.limit() == usize::MAX,
    {
        TrieDB::with_limit(usize::MAX)
    }

    /// An empty store that may hold `limit` nodes.
    pub fn with_limit(limit: usize) -> (db: TrieDB)
        ensures
            db.wf(),
            db.is_open(),
            db@ == Seq::<NodeView>::empty(),
            db.limit() == limit,
    {
        let db: TrieDB = TrieDB { nodes: Vec::new(), limit, open: true };
        assert(db@ =~= Seq::<NodeView>::empty());
        db
    }

    /// Closes the store: from now on it answers every access with an error.
    pub fn close(&mut self)
        ensures
            !final(self).is_open(),
            final(self)@ == old(self)@,
            final(self).limit() == old(self).limit(),
    {
        self.open = false;
        assert(self@ =~= old(self)@);
    }

    /// The node at `node_ref`, if one is stored there.
    pub fn get_node(&self, node_ref: NodeRef) -> (found: Result<Option<Node>, StoreError>)
        ensures
            found is Ok <==> self.is_open(),
            match found {
                Ok(Some(node)) => node_ref@ matches Some(i) && i < self@.len() && node@
                    == self@[i as int],
                Ok(None) => !(node_ref@ matches Some(i) && i < self@.len()),
                Err(e) => e == StoreError::Closed,
            },
    {
        if !self.open {
            return Err(StoreError::Closed);
        }
        match node_ref.index() {
            Some(i) => if i < self.nodes.len() {
                Ok(Some(self.nodes[i].clone()))
            } else {
                Ok(None)
            },
            None => Ok(None),
        }
    }

    /// Stores `node` and tells where.
    pub fn insert_node(&mut self, node: Node) -> (stored_at: Result<NodeRef, StoreError>)
        requires
            old(self)@.len() <= old(self).limit(),
        ensures
            stored_at is Ok <==> old(self).can_store(1),
            match stored_at {
                Ok(node_ref) => {
                    &&& node_ref@ == Some(old(self)@.len())
                    &&& final(self)@ == old(self)@.push(node@)
                },
                Err(e) => {
                    &&& e == old(self).refusal()
                    &&& final(self)@ == old(self)@
                },
            },
            final(self).limit() == old(self).limit(),
            final(self).is_open() == old(self).is_open(),
            old(self).wf() && node@.sound(old(self)@.len()) ==> final(self).follows(*old(self)),
    {
        if !self.open {
            assert(self@.take(self@.len() as int) =~= self@);
            return Err(StoreError::Closed);
        }
        if self.nodes.len() >= self.limit {
            assert(self@.take(self@.len() as int) =~= self@);
            return Err(StoreError::Full);
        }
        let node_ref: NodeRef = NodeRef::new(self.nodes.len());
        self.nodes.push(node);
        proof {
            let (before, after) = (old(self)@, self@);
            assert(after =~= before.push(node@));
            assert(after.take(before.len() as int) =~= before);
            if old(self).wf() && node@.sound(before.len()) {
                assert forall|i: int| 0 <= i < after.len() implies (#[trigger] after[i]).sound(
                    i as nat,
                ) by {
                    if i < before.len() {
                        assert(before[i].sound(i as nat));
                    }
                }
            }
        }
        Ok(node_ref)
    }
}

} // verus!
