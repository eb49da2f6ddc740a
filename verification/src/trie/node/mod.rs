//! The nodes of the trie.

pub mod branch;
pub mod extension;
pub mod leaf;

use crate::error::StoreError;
use crate::trie::db::TrieDB;
use crate::trie::hashing::NodeHashRef;
use crate::trie::nibble::NibbleSlice;
use crate::trie::stored;
use crate::trie::stored::NodeView;
use crate::trie::tree::Tree;
use crate::trie::writes;
use vstd::prelude::*;

pub use branch::BranchNode;
pub use extension::{compute_extension_hash, ExtensionNode};
pub use leaf::LeafNode;

verus! {

/// The key of a value, in bytes.
pub type PathRLP = Vec<u8>;

/// An encoded value.
pub type ValueRLP = Vec<u8>;

/// A node of the trie.
#[derive(Debug)]
pub enum Node {
    Branch(BranchNode),
    Extension(ExtensionNode),
    Leaf(LeafNode),
}

impl View for Node {
    type V = NodeView;

    open spec fn view(&self) -> NodeView {
        match self {
            Node::Branch(node) => node@,
            Node::Extension(node) => node@,
            Node::Leaf(node) => node@,
        }
    }
}

impl Clone for Node {
    fn clone(&self) -> (copy: Node)
        ensures
            copy@ == self@,
    {
        match self {
            Node::Branch(node) => Node::Branch(node.clone()),
            Node::Extension(node) => Node::Extension(node.clone()),
            Node::Leaf(node) => Node::Leaf(node.clone()),
        }
    }
}

impl Node {
    /// The value that the trie holds for `path`.
    pub fn get(&self, db: &TrieDB, path: NibbleSlice<'_>) -> (result: Result<
        Option<ValueRLP>,
        StoreError,
    >)
        requires
            db.wf(),
            self@.sound(db@.len()),
            path.wf(),
        ensures
            ({
                let trie = stored::tree_of(db@, self@);
                match result {
                    Ok(value) => {
                        &&& db.is_open() || !trie.get_reads(path.full(), path.at() as int)
                        &&& value_view(value) == trie.get(path.full(), path.at() as int)
                    },
                    Err(e) => {
                        &&& e == StoreError::Closed
                        &&& !db.is_open() && trie.get_reads(path.full(), path.at() as int)
                    },
                }
            }),
        decreases self@.rank(), 1nat,
    {
        match self {
            Node::Branch(node) => node.get(db, path),
            Node::Extension(node) => node.get(db, path),
            Node::Leaf(node) => Ok(node.get(path)),
        }
    }

    /// Puts `value` in for `path` and gives the new top node.
    pub fn insert(
        self,
        db: &mut TrieDB,
        path: NibbleSlice<'_>,
        value: ValueRLP,
    ) -> (result: Result<Node, StoreError>)
        requires
            old(db).wf(),
            self@.sound(old(db)@.len()),
            path.wf(),
            stored::tree_of(old(db)@, self@).fits(path.at() as int),
        ensures
            insert_outcome(
                *old(db),
                *final(db),
                self@,
                path,
                value@,
                result,
            ),
        decreases self@.rank(), 1nat,
    {
        match self {
            Node::Branch(node) => node.insert(db, path, value),
            Node::Extension(node) => node.insert(db, path, value),
            Node::Leaf(node) => node.insert(db, path, value),
        }
    }

    /// Takes `path` out and gives the new top node, if one is left, and the value that was held.
    pub fn remove(self, db: &mut TrieDB, path: NibbleSlice<'_>) -> (result: Result<
        (Option<Node>, Option<ValueRLP>),
        StoreError,
    >)
        requires
            old(db).wf(),
            self@.sound(old(db)@.len()),
            path.wf(),
        ensures
            remove_outcome(
                *old(db),
                *final(db),
                self@,
                path,
                result,
            ),
        decreases self@.rank(), 1nat,
    {
        match self {
            Node::Branch(node) => node.remove(db, path),
            Node::Extension(node) => node.remove(db, path),
            Node::Leaf(node) => {
                proof {
                    stored::tree_parts(db@, node@);
                    stored::grown_itself(db@);
                }
                Ok(node.remove(path))
            },
        }
    }

    /// What stands for the trie in its parent, if `path_offset` nibbles led here; the node takes a
    /// note of it.
    pub fn compute_hash(&mut self, db: &TrieDB, path_offset: usize) -> (result: Result<
        NodeHashRef,
        StoreError,
    >)
        requires
            db.wf(),
            old(self)@.sound(db@.len()),
            path_offset + stored::tree_of(db@, old(self)@).span() <= usize::MAX,
        ensures
            hash_outcome(*db, old(self)@, final(self)@, path_offset as int, result),
        decreases old(self)@.rank(), 1nat,
    {
        match self {
            Node::Branch(node) => node.compute_hash(db, path_offset),
            Node::Extension(node) => node.compute_hash(db, path_offset),
            Node::Leaf(node) => {
                proof {
                    stored::tree_parts(db@, node@);
                }
                Ok(node.compute_hash(path_offset))
            },
        }
    }
}

/// The bytes of a value, if there is one.
pub open spec fn value_view(value: Option<ValueRLP>) -> Option<Seq<u8>> {
    match value {
        Some(v) => Some(v@),
        None => None,
    }
}

/// The trie that starts at a node, if there is one.
pub open spec fn tree_from(nodes: Seq<NodeView>, node: Option<Node>) -> Tree {
    match node {
        Some(n) => stored::tree_of(nodes, n@),
        None => Tree::Empty,
    }
}

/// A node as it stands in the store, if there is one.
pub open spec fn node_view(node: Option<Node>) -> Option<NodeView> {
    match node {
        Some(n) => Some(n@),
        None => None,
    }
}

/// What an insertion at `node` puts into the store and gives. It succeeds exactly if the nodes that
/// it needs can be stored; otherwise the first of them are stored until an open store is full, and
/// a closed store is left as it was.
pub open spec fn insert_writes(
    before: TrieDB,
    after: TrieDB,
    node: NodeView,
    path: NibbleSlice<'_>,
    value: Seq<u8>,
    result: Result<Node, StoreError>,
) -> bool {
    let (data, at) = (path.bytes(), path.at() as int);
    let cost = stored::tree_of(before@, node).insert_cost(data, at);
    &&& after.limit() == before.limit()
    &&& after.is_open() == before.is_open()
    &&& stored::grown(before@, after@)
    &&& match result {
        Ok(top) => {
            &&& before.can_store(cost)
            &&& after@.len() == before@.len() + cost
            &&& (after@, top@) == writes::inserted(before@, node, data, at, value)
        },
        Err(e) => {
            &&& !before.can_store(cost)
            &&& e == before.refusal()
            &&& after@.len() == (if before.is_open() {
                before.limit()
            } else {
                before@.len()
            })
            &&& stored::grown(after@, writes::inserted(before@, node, data, at, value).0)
        },
    }
}

/// What an insertion at `node` makes of the trie there, of which the store holds the rest.
pub open spec fn insert_outcome(
    before: TrieDB,
    after: TrieDB,
    node: NodeView,
    path: NibbleSlice<'_>,
    value: Seq<u8>,
    result: Result<Node, StoreError>,
) -> bool {
    &&& insert_writes(before, after, node, path, value, result)
    &&& after.follows(before)
    &&& result matches Ok(top) ==> {
        &&& top@.sound(after@.len())
        &&& stored::tree_of(after@, top@) == stored::tree_of(before@, node).insert(
            path.bytes(),
            path.at() as int,
            value,
        )
    }
}

/// What a removal at `node` makes of the trie there and of the store, and what it gives. It succeeds exactly if it can read the
/// nodes and store the nodes that it has to; otherwise the first of these are stored until an open
/// store is full, and a closed store is left as it was.
pub open spec fn remove_outcome(
    before: TrieDB,
    after: TrieDB,
    node: NodeView,
    path: NibbleSlice<'_>,
    result: Result<(Option<Node>, Option<ValueRLP>), StoreError>,
) -> bool {
    let trie = stored::tree_of(before@, node);
    let (key, at) = (path.full(), path.at() as int);
    let cost = trie.remove_cost(key, at);
    let possible = (before.is_open() || !trie.remove_reads(key, at)) && before.can_store(cost);
    &&& after.follows(before)
    &&& match result {
        Ok((left, value)) => {
            &&& possible
            &&& after@.len() == before@.len() + cost
            &&& (after@, node_view(left)) == writes::removed(before@, node, key, at)
            &&& left matches Some(n) ==> n@.sound(after@.len())
            &&& (tree_from(after@, left), value_view(value)) == trie.remove(key, at)
        },
        Err(e) => {
            &&& !possible
            &&& e == before.refusal()
            &&& after@.len() == (if before.is_open() {
                before.limit()
            } else {
                before@.len()
            })
            &&& stored::grown(after@, writes::removed(before@, node, key, at).0)
        },
    }
}

/// What hashing the trie at the node `before` gives and makes of the node. It succeeds exactly if
/// it can read the nodes that it has to; otherwise it changes nothing.
pub open spec fn hash_outcome(
    db: TrieDB,
    before: NodeView,
    after: NodeView,
    path_offset: int,
    result: Result<NodeHashRef, StoreError>,
) -> bool {
    let trie = stored::tree_of(db@, before);
    match result {
        Ok(hash) => {
            &&& db.is_open() || !trie.hash_reads()
            &&& hash@ == trie.hashed(path_offset)
            &&& after == before.noted(hash@)
        },
        Err(e) => {
            &&& !db.is_open() && trie.hash_reads()
            &&& e == StoreError::Closed
            &&& after == before
        },
    }
}

/// A copy of a value.
pub fn copy_value(value: &ValueRLP) -> (copy: ValueRLP)
    ensures
        copy@ == value@,
{
    let copy: ValueRLP = value.clone();
    assert(copy@ =~= value@);
    copy
}

} // verus!
