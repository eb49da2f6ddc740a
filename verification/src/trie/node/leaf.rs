//! Leaf nodes: one value each.

use crate::error::StoreError;
use crate::trie::db::TrieDB;
use crate::trie::facts;
use crate::trie::hashing::{NodeHash, NodeHashRef, NodeHasher};
use crate::trie::nibble;
use crate::trie::nibble::{Nibble, NibbleSlice, NibbleVec};
use crate::trie::node;
use crate::trie::node::branch;
use crate::trie::node::{copy_value, BranchNode, ExtensionNode, Node, PathRLP, ValueRLP};
use crate::trie::node_ref::NodeRef;
use crate::trie::rlp;
use crate::trie::rlp::PathKind;
use crate::trie::stored;
use crate::trie::stored::NodeView;
use crate::trie::tree;
use crate::trie::tree::Tree;
use crate::trie::writes;
use vstd::prelude::*;

verus! {

/// A node that holds one value, with its whole key.
#[derive(Debug)]
pub struct LeafNode {
    pub hash: NodeHash,
    pub path: PathRLP,
    pub value: ValueRLP,
}

impl View for LeafNode {
    type V = NodeView;

    open spec fn view(&self) -> NodeView {
        NodeView::Leaf { hash: self.hash@, path: self.path@, value: self.value@ }
    }
}

impl Clone for LeafNode {
    fn clone(&self) -> (copy: LeafNode)
        ensures
            copy@ == self@,
    {
        LeafNode {
            hash: self.hash.clone(),
            path: copy_value(&self.path),
            value: copy_value(&self.value),
        }
    }
}

impl LeafNode {
    /// A leaf with this key and value.
    pub fn new(path: PathRLP, value: ValueRLP) -> (node: LeafNode)
        ensures
            node.hash@ is None,
            node.path == path,
            node.value == value,
    {
        LeafNode { hash: NodeHash::default(), path, value }
    }

    /// The value, if `path` is the leaf's key from where `path` is read on.
    pub fn get(&self, path: NibbleSlice<'_>) -> (value: Option<ValueRLP>)
        requires
            path.wf(),
        ensures
            node::value_view(value) == (Tree::Leaf {
                hash: self.hash@,
                path: self.path@,
                value: self.value@,
            }).get(path.full(), path.at() as int),
    {
        if path.rest_is(self.path.as_slice()) {
            Some(copy_value(&self.value))
        } else {
            None
        }
    }

    /// Puts `value` in for `path` and gives the new top node.
    pub fn insert(
        self,
        db: &mut TrieDB,
        path: NibbleSlice<'_>,
        value: ValueRLP,
    ) -> (result: Result<Node, StoreError>)
        requires
            old(db).wf(),
            self@.sound(old(db)@.len()),
            path.wf(),
            stored::tree_of(old(db)@, self@).fits(path.at() as int),
        ensures
            node::insert_outcome(
                *old(db),
                *final(db),
                self@,
                path,
                value@,
                result,
            ),
    {
        let mut node: LeafNode = self;
        let ghost start = path.at() as int;
        let ghost (key, own) = (path.full(), nibble::nibbles(self.path@));
        let ghost (data, new_value) = (path.bytes(), value@);
        proof {
            stored::tree_parts(db@, self@);
            stored::grown_itself(db@);
        }
        node.hash.mark_as_dirty();
        if path.rest_is(node.path.as_slice()) {
            // The same key: take the value.
            node.value = value;
            proof {
                stored::tree_parts(db@, node@);
            }
            return Ok(Node::Leaf(node));
        }
        let mut own_path: NibbleSlice<'_> = NibbleSlice::new(node.path.as_slice());
        own_path.offset_add(path.offset());
        let offset: usize = path.count_prefix_slice(&own_path);
        let mut branch_path: NibbleSlice<'_> = path;
        branch_path.offset_add(offset);
        own_path.offset_add(offset);
        let (choice, own_choice): (Option<Nibble>, Option<Nibble>) = (
            branch_path.next(),
            own_path.next(),
        );
        proof {
            facts::keys_part(key, own, start);
            writes::beside_grows(db@, self.path@, self.value@, data, start, new_value);
        }
        // Branch, with what goes on behind the common part and the value that ends there, if any.
        let mut choices: [NodeRef; 16] = [NodeRef::default();16];
        let branch_node: BranchNode = match (choice, own_choice) {
            (None, None) => {
                // Keys that agree and end together are the same.
                assert(false);
                BranchNode::new(choices)
            },
            (None, Some(own_choice)) => {
                proof {
                    stored::tree_at_end(db@, node@);
                }
                choices[own_choice.as_u8() as usize] = db.insert_node(Node::Leaf(node))?;
                BranchNode::new_with_value(choices, path.data(), value)
            },
            (Some(choice), None) => {
                let new_leaf: LeafNode = LeafNode::new(path.data(), value);
                proof {
                    stored::tree_at_end(db@, new_leaf@);
                }
                choices[choice.as_u8() as usize] = db.insert_node(Node::Leaf(new_leaf))?;
                BranchNode::new_with_value(choices, node.path, node.value)
            },
            (Some(choice), Some(own_choice)) => {
                let new_leaf: LeafNode = LeafNode::new(path.data(), value);
                let ghost both = (db@.push(new_leaf@), db@.push(new_leaf@).push(node@));
                proof {
                    stored::tree_at_end(db@, new_leaf@);
                    stored::tree_at_end(both.0, node@);
                    stored::tree_at_stays(both.0, both.1, Some(db@.len()));
                    stored::grown_further(db@, both.0, both.1);
                }
                let child_ref: NodeRef = db.insert_node(Node::Leaf(new_leaf))?;
                choices[own_choice.as_u8() as usize] = db.insert_node(Node::Leaf(node))?;
                choices[choice.as_u8() as usize] = child_ref;
                BranchNode::new(choices)
            },
        };
        let ghost second = *db;
        assert(second.follows(*old(db)));
        proof {
            let m = start + offset;
            let mine = tree::leaf(self.path@, self.value@);
            let other = tree::leaf(data, new_value);
            let trees = if m == key.len() {
                tree::no_choices().update(own[m].value(), mine)
            } else if m == own.len() {
                tree::no_choices().update(key[m].value(), other)
            } else {
                tree::no_choices().update(own[m].value(), mine).update(key[m].value(), other)
            };
            assert(branch::trees_at(second@, branch_node.choices) =~= trees);
            branch::branch_tree(second@, branch_node);
            let end = old(db)@.len();
            let none = writes::no_positions();
            assert(branch::positions(branch_node.choices) =~= if m == key.len() {
                none.update(own[m].value(), Some(end))
            } else if m == own.len() {
                none.update(key[m].value(), Some(end))
            } else {
                none.update(own[m].value(), Some(end + 1)).update(key[m].value(), Some(end))
            });
        }
        // What the keys have in common, if anything, in front of the branch.
        if offset != 0 {
            proof {
                stored::tree_at_end(second@, branch_node@);
                stored::grown_further(old(db)@, second@, second@.push(branch_node@));
            }
            let branch_ref: NodeRef = db.insert_node(Node::Branch(branch_node))?;
            let prefix: ExtensionNode = ExtensionNode::new(path.split_to_vec(offset), branch_ref);
            proof {
                stored::tree_parts(db@, prefix@);
            }
            Ok(Node::Extension(prefix))
        } else {
            Ok(Node::Branch(branch_node))
        }
    }

    /// Takes the value out if `path` is the leaf's key from where `path` is read on: then no node
    /// is left.
    pub fn remove(self, path: NibbleSlice<'_>) -> (result: (Option<Node>, Option<ValueRLP>))
        requires
            path.wf(),
        ensures
            ({
                let trie = Tree::Leaf {
                    hash: self.hash@,
                    path: self.path@,
                    value: self.value@,
                };
                let (left, held) = trie.remove(path.full(), path.at() as int);
                &&& left == (if result.0 is Some {
                    trie
                } else {
                    Tree::Empty
                })
                &&& result.0 is Some ==> result.0 == Some(Node::Leaf(self))
                &&& node::value_view(result.1) == held
            }),
    {
        if path.rest_is(self.path.as_slice()) {
            (None, Some(self.value))
        } else {
            (Some(Node::Leaf(self)), None)
        }
    }

    /// What stands for the leaf in its parent, if `path_offset` nibbles led here; the leaf takes a
    /// note of it.
    pub fn compute_hash(&mut self, path_offset: usize) -> (result: NodeHashRef)
        requires
            stored::countable(old(self).path@),
        ensures
            result@ == (Tree::Leaf {
                hash: old(self).hash@,
                path: old(self).path@,
                value: old(self).value@,
            }).hashed(path_offset as int),
            final(self)@ == old(self)@.noted(result@),
    {
        if let Some(hash) = self.hash.extract_ref() {
            return hash;
        }
        let mut hasher: NodeHasher = NodeHasher::new();
        let ghost rest = tree::rest(nibble::nibbles(self.path@), path_offset as int);
        if path_offset <= 2 * self.path.len() {
            let mut path: NibbleSlice<'_> = NibbleSlice::new(self.path.as_slice());
            path.offset_add(path_offset);
            hasher.write_path_slice(&path, PathKind::Leaf);
        } else {
            hasher.write_path_vec(&NibbleVec::new(), PathKind::Leaf);
        }
        hasher.write_bytes(self.value.as_slice());
        assert(hasher@ =~= rlp::rlp_string(rlp::hex_prefix(rest, PathKind::Leaf)) + rlp::rlp_string(
            self.value@,
        ));
        hasher.finalize(&mut self.hash)
    }
}

} // verus!
