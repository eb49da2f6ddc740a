//! Extension nodes: what keys have in common.

use crate::error::StoreError;
use crate::trie::db::TrieDB;
use crate::trie::facts;
use crate::trie::hashing::{NodeHash, NodeHashRef, NodeHasher};
use crate::trie::laws;
use crate::trie::nibble;
use crate::trie::nibble::{Nibble, NibbleSlice, NibbleVec};
use crate::trie::node;
use crate::trie::node::branch;
use crate::trie::node::{BranchNode, LeafNode, Node, ValueRLP};
use crate::trie::node_ref::NodeRef;
use crate::trie::rlp;
use crate::trie::rlp::PathKind;
use crate::trie::stored;
use crate::trie::stored::NodeView;
use crate::trie::tree;
use crate::trie::writes;
use vstd::prelude::*;

verus! {

/// A node whose keys all go on by `prefix`.
#[derive(Debug)]
pub struct ExtensionNode {
    pub hash: NodeHash,
    pub prefix: NibbleVec,
    pub child: NodeRef,
}

impl View for ExtensionNode {
    type V = NodeView;

    open spec fn view(&self) -> NodeView {
        NodeView::Extension { hash: self.hash@, prefix: self.prefix@, child: self.child@ }
    }
}

impl Clone for ExtensionNode {
    fn clone(&self) -> (copy: ExtensionNode)
        ensures
            copy@ == self@,
    {
        ExtensionNode { hash: self.hash.clone(), prefix: self.prefix.clone(), child: self.child }
    }
}

impl ExtensionNode {
    /// An extension by `prefix` to `child`.
    pub fn new(prefix: NibbleVec, child: NodeRef) -> (node: ExtensionNode)
        ensures
            node.hash@ is None,
            node.prefix == prefix,
            node.child == child,
    {
        ExtensionNode { hash: NodeHash::default(), prefix, child }
    }

    /// The value that the trie holds for `path`.
    pub fn get(&self, db: &TrieDB, path: NibbleSlice<'_>) -> (result: Result<
        Option<ValueRLP>,
        StoreError,
    >)
        requires
            path.wf(),
            nibble::stands_at(path.full(), path.at() as int, self.prefix@) ==> {
                &&& db.wf()
                &&& self@.sound(db@.len())
            },
        ensures
            !nibble::stands_at(path.full(), path.at() as int, self.prefix@) ==> result == Ok::<
                Option<ValueRLP>,
                StoreError,
            >(None),
            ({
                let trie = stored::tree_of(db@, self@);
                match result {
                    Ok(value) => {
                        &&& db.is_open() || !trie.get_reads(path.full(), path.at() as int)
                        &&& node::value_view(value) == trie.get(path.full(), path.at() as int)
                    },
                    Err(e) => {
                        &&& e == StoreError::Closed
                        &&& !db.is_open() && trie.get_reads(path.full(), path.at() as int)
                    },
                }
            }),
        decreases self@.rank(), 0nat,
    {
        let mut path: NibbleSlice<'_> = path;
        proof {
            if nibble::stands_at(path.full(), path.at() as int, self.prefix@) {
                stored::tree_parts(db@, self@);
            }
        }
        // If the path is prefixed by this node's prefix, delegate to its child.
        // Otherwise, no value is present.
        if path.skip_prefix(&self.prefix) {
            let child_node: Node = db.get_node(self.child)?.expect(
                "inconsistent internal tree structure",
            );
            proof {
                stored::stored_sound(db@, self.child@->0);
            }
            child_node.get(db, path)
        } else {
            Ok(None)
        }
    }

    /// Puts `value` in for `path` and gives the new top node.
    pub fn insert(
        self,
        db: &mut TrieDB,
        path: NibbleSlice<'_>,
        value: ValueRLP,
    ) -> (result: Result<Node, StoreError>)
        requires
            old(db)@.len() <= old(db).limit(),
            path.wf(),
            nibble::stands_at(path.full(), path.at() as int, self.prefix@) ==> {
                &&& old(db).wf()
                &&& self@.sound(old(db)@.len())
                &&& stored::tree_of(old(db)@, self@).fits(path.at() as int)
            },
        ensures
            node::insert_writes(*old(db), *final(db), self@, path, value@, result),
            nibble::stands_at(path.full(), path.at() as int, self.prefix@) ==> (result matches Ok(
                top,
            ) ==> top matches Node::Extension(x) && x.hash@ is None && x.prefix@ == self.prefix@
                && x.child@ == Some((final(db)@.len() - 1) as nat)),
            !nibble::stands_at(path.full(), path.at() as int, self.prefix@) ==> (result matches Ok(
                top,
            ) ==> (final(db)@, top@) == writes::parted(
                old(db)@,
                self.prefix@,
                self.child@,
                path.bytes(),
                path.at() as int,
                value@,
            )),
            old(db).wf() && self@.sound(old(db)@.len()) ==> node::insert_outcome(
                *old(db),
                *final(db),
                self@,
                path,
                value@,
                result,
            ),
            old(db).wf() && self@.sound(old(db)@.len()) ==> (result matches Ok(node) ==> forall|
                key: Seq<Nibble>,
            |
                path.at() <= key.len() ==> (#[trigger] stored::tree_of(final(db)@, node@).get(
                    key,
                    path.at() as int,
                )) == (if tree::same_rest(path.full(), key, path.at() as int) {
                    Some(value@)
                } else {
                    stored::tree_of(old(db)@, self@).get(key, path.at() as int)
                })),
        decreases self@.rank(), 0nat,
    {
        // Possible flow paths (there are duplicates between different prefix lengths):
        //   extension { [0], child } -> branch { 0 => child } with_value !
        //   extension { [0], child } -> extension { [0], child }
        //   extension { [0, 1], child } -> branch { 0 => extension { [1], child } } with_value !
        //   extension { [0, 1], child } -> extension { [0], branch { 1 => child } with_value ! }
        //   extension { [0, 1], child } -> extension { [0, 1], child }
        //   extension { [0, 1, 2], child } -> branch { 0 => extension { [1, 2], child } } with_value !
        //   extension { [0, 1, 2], child } -> extension { [0], branch { 1 => extension { [2], child } } with_value ! }
        //   extension { [0, 1, 2], child } -> extension { [0, 1], branch { 2 => child } with_value ! }
        //   extension { [0, 1, 2], child } -> extension { [0, 1, 2], child }
        proof {
            if nibble::stands_at(path.full(), path.at() as int, self.prefix@) {
                stored::tree_parts(db@, self@);
                stored::stored_sound(db@, self.child@->0);
                let (later, top) = writes::inserted(
                    db@,
                    db@[self.child@->0 as int],
                    path.bytes(),
                    (path.at() + self.prefix@.len()) as int,
                    value@,
                );
                writes::grows_on(later, top);
            }
            stored::grown_itself(db@);
            let trie = stored::tree_of(db@, self@);
            let (data, at) = (path.bytes(), path.at() as int);
            writes::inserted_grows(db@, self@, data, at, value@);
            assert forall|key: Seq<Nibble>| at <= key.len() implies (#[trigger] trie.insert(
                data,
                at,
                value@,
            ).get(key, at)) == (if tree::same_rest(nibble::nibbles(data), key, at) {
                Some(value@)
            } else {
                trie.get(key, at)
            }) by {
                if nibble::stands_at(path.full(), at, self.prefix@) {
                    laws::insert_then_get(trie, data, at, value@, key);
                } else {
                    laws::parted_insert_then_get(trie, data, at, value@, key);
                }
            }
        }
        let mut node: ExtensionNode = self;
        let mut path: NibbleSlice<'_> = path;
        node.hash.mark_as_dirty();
        if path.skip_prefix(&node.prefix) {
            let child_node: Node = db.get_node(node.child)?.expect(
                "inconsistent internal tree structure",
            );
            let child_node: Node = child_node.insert(db, path, value)?;
            let ghost middle = db@;
            node.child = db.insert_node(child_node)?;
            proof {
                stored::tree_at_end(middle, child_node@);
                stored::grown_further(old(db)@, middle, db@);
                stored::tree_parts(db@, node@);
            }
            Ok(Node::Extension(node))
        } else {
            node.part(db, path, value)
        }
    }

    /// Puts `value` in for `path`, which parts from the prefix somewhere.
    fn part(self, db: &mut TrieDB, path: NibbleSlice<'_>, value: ValueRLP) -> (result: Result<
        Node,
        StoreError,
    >)
        requires
            old(db)@.len() <= old(db).limit(),
            path.wf(),
            !nibble::stands_at(path.full(), path.at() as int, self.prefix@),
        ensures
            node::insert_writes(*old(db), *final(db), self@, path, value@, result),
            old(db).wf() && self@.sound(old(db)@.len()) ==> node::insert_outcome(
                *old(db),
                *final(db),
                self@,
                path,
                value@,
                result,
            ),
    {
        let ghost start = path.at() as int;
        let ghost key = path.full();
        let ghost prefix = self.prefix@;
        let ghost data = path.bytes();
        let ghost new_value = value@;
        let ghost below = stored::tree_at(db@, self.child@);
        let ghost valid = db.wf() && self@.sound(db@.len());
        proof {
            if valid {
                stored::tree_parts(db@, self@);
            }
            stored::grown_itself(db@);
            facts::parting(key, start, prefix);
            writes::parted_grows(db@, prefix, self.child@, data, start, new_value);
        }
        let mut path: NibbleSlice<'_> = path;
        let offset: usize = path.count_prefix_vec(&self.prefix);
        path.offset_add(offset);
        let child: NodeRef = self.child;
        let (left_prefix, choice, right_prefix) = self.prefix.split_extract_at(offset);
        // Right part of the prefix, if any, in front of the child.
        let right_node: NodeRef = if !right_prefix.is_empty() {
            let right: ExtensionNode = ExtensionNode::new(right_prefix, child);
            proof {
                stored::grown_by_one(db@, right@);
                if valid {
                    stored::tree_parts(db@, right@);
                    stored::tree_at_end(db@, right@);
                }
            }
            db.insert_node(Node::Extension(right))?
        } else {
            child
        };
        let ghost first = *db;
        assert(valid ==> stored::tree_at(first@, right_node@) == tree::behind(
            right_prefix@,
            below,
        ));
        assert(valid ==> first.follows(*old(db)));
        // Branch, with the right part at its choice and the new value.
        let mut choices: [NodeRef; 16] = [NodeRef::default();16];
        choices[choice.as_u8() as usize] = right_node;
        proof {
            stored::grown_itself(first@);
        }
        let branch_node: BranchNode = if let Some(c) = path.next() {
            let new_leaf: LeafNode = LeafNode::new(path.data(), value);
            proof {
                stored::grown_by_one(db@, new_leaf@);
                if valid {
                    stored::tree_parts(db@, new_leaf@);
                    stored::tree_at_end(db@, new_leaf@);
                }
                stored::grown_further(old(db)@, first@, db@.push(new_leaf@));
            }
            choices[c.as_u8() as usize] = db.insert_node(Node::Leaf(new_leaf))?;
            BranchNode::new(choices)
        } else {
            BranchNode::new_with_value(choices, path.data(), value)
        };
        let ghost second = *db;
        assert(valid ==> second.follows(*old(db)));
        proof {
            let none = writes::no_positions().update(prefix[offset as int].value(), right_node@);
            assert(branch::positions(branch_node.choices) =~= if start + offset < key.len() {
                none.update(key[start + offset].value(), Some(first@.len()))
            } else {
                none
            });
            let without = tree::no_choices().update(
                prefix[offset as int].value(),
                tree::behind(right_prefix@, below),
            );
            let trees = if start + offset < key.len() {
                without.update(key[start + offset].value(), tree::leaf(data, new_value))
            } else {
                without
            };
            if valid {
                stored::tree_at_stays(first@, second@, right_node@);
                assert(branch::trees_at(second@, branch_node.choices) =~= trees);
                branch::branch_tree(second@, branch_node);
            }
        }
        // Left part of the prefix, if any, in front of the branch.
        if !left_prefix.is_empty() {
            proof {
                stored::grown_by_one(second@, branch_node@);
                if valid {
                    stored::tree_at_end(second@, branch_node@);
                }
                stored::grown_further(old(db)@, second@, second@.push(branch_node@));
            }
            let branch_ref: NodeRef = db.insert_node(Node::Branch(branch_node))?;
            let left: ExtensionNode = ExtensionNode::new(left_prefix, branch_ref);
            proof {
                if valid {
                    stored::tree_parts(db@, left@);
                }
            }
            Ok(Node::Extension(left))
        } else {
            Ok(Node::Branch(branch_node))
        }
    }

    /// Takes `path` out and gives the new top node, if one is left, and the value that was held.
    pub fn remove(self, db: &mut TrieDB, path: NibbleSlice<'_>) -> (result: Result<
        (Option<Node>, Option<ValueRLP>),
        StoreError,
    >)
        requires
            path.wf(),
            nibble::stands_at(path.full(), path.at() as int, self.prefix@) ==> {
                &&& old(db).wf()
                &&& self@.sound(old(db)@.len())
            },
        ensures
            !nibble::stands_at(path.full(), path.at() as int, self.prefix@) ==> {
                &&& result == Ok::<(Option<Node>, Option<ValueRLP>), StoreError>(
                    (Some(Node::Extension(self)), None),
                )
                &&& *final(db) == *old(db)
            },
            nibble::stands_at(path.full(), path.at() as int, self.prefix@) ==> (result matches Ok((
                left,
                value,
            )) ==> {
                let below = old(db)@[self.child@->0 as int];
                let (later, child) = writes::removed(
                    old(db)@,
                    below,
                    path.full(),
                    (path.at() + self.prefix@.len()) as int,
                );
                (final(db)@, node::node_view(left)) == writes::rejoined(
                    later,
                    writes::kept(self.hash@, node::value_view(value)),
                    self.prefix@,
                    child,
                )
            }),
            old(db).wf() && self@.sound(old(db)@.len()) ==> node::remove_outcome(
                *old(db),
                *final(db),
                self@,
                path,
                result,
            ),
            result matches Ok((_, value)) ==> node::value_view(value) == stored::tree_of(
                old(db)@,
                self@,
            ).get(path.full(), path.at() as int),
            result matches Ok((left, _)) ==> forall|way: Seq<Nibble>, key: Seq<Nibble>|
                #![trigger
                    stored::tree_of(old(db)@, self@).placed(way),
                    node::tree_from(final(db)@, left).get(key, path.at() as int)]
                stored::tree_of(old(db)@, self@).placed(way) && way.len() == path.at() <= key.len()
                    ==> node::tree_from(final(db)@, left).get(key, path.at() as int) == (
                if tree::same_rest(path.full(), key, path.at() as int) {
                    None
                } else {
                    stored::tree_of(old(db)@, self@).get(key, path.at() as int)
                }),
        decreases self@.rank(), 0nat,
    {
        // Possible flow paths:
        //   - extension { a, branch { ... } } -> extension { a, branch { ... }}
        //   - extension { a, branch { ... } } -> extension { a + b, branch { ... }}
        //   - extension { a, branch { ... } } -> leaf { ... }
        let mut node: ExtensionNode = self;
        let mut path: NibbleSlice<'_> = path;
        proof {
            if nibble::stands_at(path.full(), path.at() as int, self.prefix@) {
                stored::tree_parts(db@, self@);
                stored::stored_sound(db@, self.child@->0);
                let (later, left) = writes::removed(
                    db@,
                    db@[self.child@->0 as int],
                    path.full(),
                    (path.at() + self.prefix@.len()) as int,
                );
                writes::grows_on(later, left->0);
            }
            stored::grown_itself(db@);
            let trie = stored::tree_of(db@, self@);
            let (removed, at) = (path.full(), path.at() as int);
            writes::removed_grows(db@, self@, removed, at);
            laws::remove_gives_held(trie, removed, at);
            assert forall|way: Seq<Nibble>, key: Seq<Nibble>|
                #![trigger trie.placed(way), trie.remove(removed, at).0.get(key, at)]
                trie.placed(way) && way.len() == at <= key.len() implies trie.remove(
                removed,
                at,
            ).0.get(key, at) == (if tree::same_rest(removed, key, at) {
                None
            } else {
                trie.get(key, at)
            }) by {
                laws::remove_then_get(trie, way, removed, key);
            }
        }
        if path.skip_prefix(&node.prefix) {
            let child_node: Node = db.get_node(node.child)?.expect(
                "inconsistent internal tree structure",
            );
            let (child_node, old_value) = child_node.remove(db, path)?;
            let ghost middle = db@;
            if old_value.is_some() {
                node.hash.mark_as_dirty();
            }
            let left: Option<Node> = match child_node {
                None => None,
                Some(child_node) => {
                    proof {
                        stored::tree_parts(db@, child_node@);
                    }
                    match child_node {
                        Node::Branch(branch_node) => {
                            proof {
                                stored::tree_at_end(middle, branch_node@);
                                stored::grown_further(
                                    old(db)@,
                                    middle,
                                    middle.push(branch_node@),
                                );
                            }
                            node.child = db.insert_node(Node::Branch(branch_node))?;
                            proof {
                                stored::tree_parts(db@, node@);
                            }
                            Some(Node::Extension(node))
                        },
                        Node::Extension(extension_node) => {
                            let mut joined: ExtensionNode = extension_node;
                            node.prefix.extend(&joined.prefix);
                            joined.prefix = node.prefix;
                            proof {
                                stored::tree_parts(db@, joined@);
                            }
                            Some(Node::Extension(joined))
                        },
                        Node::Leaf(leaf_node) => Some(Node::Leaf(leaf_node)),
                    }
                },
            };
            Ok((left, old_value))
        } else {
            Ok((Some(Node::Extension(node)), None))
        }
    }

    /// What stands for the trie in its parent, if `path_offset` nibbles led here; the node takes a
    /// note of it.
    pub fn compute_hash(&mut self, db: &TrieDB, path_offset: usize) -> (result: Result<
        NodeHashRef,
        StoreError,
    >)
        requires
            old(self).hash@ is None ==> {
                &&& db.wf()
                &&& old(self)@.sound(db@.len())
                &&& path_offset + stored::tree_of(db@, old(self)@).span() <= usize::MAX
            },
        ensures
            old(self).hash@ matches Some(h) ==> {
                &&& result matches Ok(hash) && hash@ == h
                &&& *final(self) == *old(self)
            },
            node::hash_outcome(*db, old(self)@, final(self)@, path_offset as int, result),
        decreases old(self)@.rank(), 0nat,
    {
        proof {
            if self.hash@ is None {
                stored::tree_parts(db@, self@);
                stored::stored_sound(db@, self.child@->0);
            }
        }
        if let Some(hash) = self.hash.extract_ref() {
            return Ok(hash);
        }
        let mut child_node: Node = db.get_node(self.child)?.expect(
            "inconsistent internal tree structure",
        );
        let child_hash_ref: NodeHashRef = child_node.compute_hash(
            db,
            path_offset + self.prefix.len(),
        )?;
        Ok(compute_extension_hash(&mut self.hash, &self.prefix, child_hash_ref))
    }
}

/// What stands for an extension by `prefix`, where `child_hash_ref` stands for its child; `hash`
/// takes a note of it.
pub fn compute_extension_hash(
    hash: &mut NodeHash,
    prefix: &NibbleVec,
    child_hash_ref: NodeHashRef,
) -> (result: NodeHashRef)
    ensures
        result@ == tree::extension_hash(prefix@, child_hash_ref@),
        final(hash)@ == Some(result@),
{
    let mut hasher: NodeHasher = NodeHasher::new();
    hasher.write_path_vec(prefix, PathKind::Extension);
    hasher.write_hash(&child_hash_ref);
    assert(hasher@ =~= rlp::rlp_string(rlp::hex_prefix(prefix@, PathKind::Extension))
        + child_hash_ref@.item());
    hasher.finalize(hash)
}

} // verus!
