//! Branch nodes: sixteen ways to go on, and a value of their own.

use crate::error::StoreError;
use crate::trie::db::TrieDB;
use crate::trie::facts;
use crate::trie::hashing::{NodeHash, NodeHashRef, NodeHasher};
use crate::trie::laws;
use crate::trie::nibble::{Nibble, NibbleSlice, NibbleVec};
use crate::trie::node;
use crate::trie::node::{copy_value, ExtensionNode, LeafNode, Node, PathRLP, ValueRLP};
use crate::trie::node_ref::NodeRef;
use crate::trie::stored;
use crate::trie::stored::NodeView;
use crate::trie::tree;
use crate::trie::tree::Tree;
use crate::trie::writes;
use vstd::prelude::*;

verus! {

/// A node that parts keys by their next nibble, and may hold the value of the key that ends here.
#[derive(Debug)]
pub struct BranchNode {
    pub hash: NodeHash,
    pub choices: [NodeRef; 16],
    pub path: PathRLP,
    pub value: Option<ValueRLP>,
}

impl View for BranchNode {
    type V = NodeView;

    open spec fn view(&self) -> NodeView {
        NodeView::Branch {
            hash: self.hash@,
            choices: positions(self.choices),
            path: self.path@,
            value: crate::trie::node::value_view(self.value),
        }
    }
}

/// The positions that references stand for.
pub open spec fn positions(choices: [NodeRef; 16]) -> Seq<Option<nat>> {
    Seq::new(16, |i: int| choices@[i]@)
}

/// The tries that references lead to.
pub open spec fn trees_at(nodes: Seq<NodeView>, choices: [NodeRef; 16]) -> Seq<Tree> {
    Seq::new(16, |i: int| stored::tree_at(nodes, choices@[i]@))
}

/// Whether references lead only to positions below `bound`.
pub open spec fn lead_below(choices: [NodeRef; 16], bound: nat) -> bool {
    forall|i: int| 0 <= i < 16 ==> ((#[trigger] choices@[i])@ matches Some(p) ==> p < bound)
}

/// The trie that a branch makes, from its parts.
pub proof fn branch_tree(nodes: Seq<NodeView>, node: BranchNode)
    requires
        stored::sound_store(nodes),
        lead_below(node.choices, nodes.len()),
        stored::countable(node.path@),
    ensures
        node@.sound(nodes.len()),
        stored::tree_of(nodes, node@) == (Tree::Branch {
            hash: node.hash@,
            choices: trees_at(nodes, node.choices),
            path: node.path@,
            value: node::value_view(node.value),
        }),
{
    let own = positions(node.choices);
    assert forall|c: int| 0 <= c < own.len() implies (#[trigger] own[c] matches Some(i) ==> i
        < nodes.len()) by {
        assert(own[c] == node.choices@[c]@);
    }
    stored::rank_within(own, nodes.len());
    stored::tree_parts(nodes, node@);
    assert(Seq::new(16, |c: int| stored::tree_at(nodes, own[c])) =~= trees_at(
        nodes,
        node.choices,
    ));
}

/// The parts of a branch that may be stored, and the trie that it makes.
pub proof fn branch_parts(nodes: Seq<NodeView>, node: BranchNode)
    requires
        stored::sound_store(nodes),
        node@.sound(nodes.len()),
    ensures
        lead_below(node.choices, nodes.len()),
        stored::tree_of(nodes, node@) == (Tree::Branch {
            hash: node.hash@,
            choices: trees_at(nodes, node.choices),
            path: node.path@,
            value: node::value_view(node.value),
        }),
        forall|i: int|
            0 <= i < 16 ==> ((#[trigger] node.choices@[i])@ matches Some(p) ==> nodes[p as int].rank()
                < node@.rank()),
{
    let own = positions(node.choices);
    stored::tree_parts(nodes, node@);
    assert forall|i: int| 0 <= i < 16 implies ((#[trigger] node.choices@[i])@ matches Some(p) ==> p
        < nodes.len() && nodes[p as int].rank() < node@.rank()) by {
        assert(own[i] == node.choices@[i]@);
    }
    branch_tree(nodes, node);
}

impl Clone for BranchNode {
    fn clone(&self) -> (copy: BranchNode)
        ensures
            copy@ == self@,
    {
        BranchNode {
            hash: self.hash.clone(),
            choices: self.choices,
            path: copy_value(&self.path),
            value: match &self.value {
                Some(value) => Some(copy_value(value)),
                None => None,
            },
        }
    }
}

impl BranchNode {
    /// A branch with these choices and no value.
    pub fn new(choices: [NodeRef; 16]) -> (node: BranchNode)
        ensures
            node.hash@ is None,
            node.choices == choices,
            node.path@ == Seq::<u8>::empty(),
            node.value is None,
    {
        BranchNode { hash: NodeHash::default(), choices, path: Vec::new(), value: None }
    }

    /// A branch with these choices and a value, with its key.
    pub fn new_with_value(choices: [NodeRef; 16], path: PathRLP, value: ValueRLP) -> (node:
        BranchNode)
        ensures
            node.hash@ is None,
            node.choices == choices,
            node.path == path,
            node.value == Some(value),
    {
        BranchNode { hash: NodeHash::default(), choices, path, value: Some(value) }
    }

    /// The value that the trie holds for `path`.
    pub fn get(&self, db: &TrieDB, path: NibbleSlice<'_>) -> (result: Result<
        Option<ValueRLP>,
        StoreError,
    >)
        requires
            db.wf(),
            self@.sound(db@.len()),
            path.wf(),
        ensures
            ({
                let trie = stored::tree_of(db@, self@);
                match result {
                    Ok(value) => {
                        &&& db.is_open() || !trie.get_reads(path.full(), path.at() as int)
                        &&& node::value_view(value) == trie.get(path.full(), path.at() as int)
                    },
                    Err(e) => {
                        &&& e == StoreError::Closed
                        &&& !db.is_open() && trie.get_reads(path.full(), path.at() as int)
                    },
                }
            }),
        decreases self@.rank(), 0nat,
    {
        let mut path: NibbleSlice<'_> = path;
        proof {
            stored::tree_parts(db@, self@);
        }
        // If the path is at the end, the value is this node's own, if any.
        // Otherwise, check the choice and delegate to the child there, if any.
        match path.next() {
            Some(nibble) => {
                let child_ref: NodeRef = self.choices[nibble.as_u8() as usize];
                assert(child_ref@ == positions(self.choices)[nibble.value()]);
                if child_ref.is_valid() {
                    proof {
                        stored::stored_sound(db@, child_ref@->0);
                        stored::tree_not_empty(db@, db@[child_ref@->0 as int]);
                    }
                    let child_node: Node = db.get_node(child_ref)?.expect(
                        "inconsistent internal tree structure",
                    );
                    child_node.get(db, path)
                } else {
                    Ok(None)
                }
            },
            None => match &self.value {
                Some(value) => Ok(Some(copy_value(value))),
                None => Ok(None),
            },
        }
    }

    /// Puts `value` in for `path` and gives the new top node.
    pub fn insert(
        self,
        db: &mut TrieDB,
        path: NibbleSlice<'_>,
        value: ValueRLP,
    ) -> (result: Result<Node, StoreError>)
        requires
            old(db).wf(),
            self@.sound(old(db)@.len()),
            path.wf(),
            stored::tree_of(old(db)@, self@).fits(path.at() as int),
        ensures
            node::insert_outcome(
                *old(db),
                *final(db),
                self@,
                path,
                value@,
                result,
            ),
        decreases self@.rank(), 0nat,
    {
        let mut node: BranchNode = self;
        let mut path: NibbleSlice<'_> = path;
        let ghost start = path.at() as int;
        let ghost new_value = value@;
        let ghost before = trees_at(db@, self.choices);
        let ghost trie = stored::tree_of(db@, self@);
        proof {
            branch_parts(db@, self);
            stored::grown_itself(db@);
        }
        node.hash.mark_as_dirty();
        // If the path is at the end, take the value. Otherwise, delegate to the child at the
        // choice, or put a leaf there.
        match path.next() {
            Some(nibble) => {
                let choice: usize = nibble.as_u8() as usize;
                let child_ref: NodeRef = node.choices[choice];
                assert(before[choice as int] == stored::tree_at(db@, child_ref@));
                assert(positions(self.choices)[choice as int] == child_ref@);
                assert(trie.insert_cost(path.bytes(), start) == before[choice as int].insert_cost(
                    path.bytes(),
                    start + 1,
                ) + 1);
                proof {
                    writes::inserted_grows(db@, self@, path.bytes(), start, new_value);
                }
                let child_node: Node = if child_ref.is_valid() {
                    proof {
                        stored::stored_sound(db@, child_ref@->0);
                        let (later, top) = writes::inserted(
                            db@,
                            db@[child_ref@->0 as int],
                            path.bytes(),
                            start + 1,
                            new_value,
                        );
                        writes::grows_on(later, top);
                    }
                    let child_node: Node = db.get_node(child_ref)?.expect(
                        "inconsistent internal tree structure",
                    );
                    child_node.insert(db, path, value)?
                } else {
                    let new_leaf: LeafNode = LeafNode::new(path.data(), value);
                    proof {
                        stored::tree_parts(db@, new_leaf@);
                    }
                    Node::Leaf(new_leaf)
                };
                let ghost middle = db@;
                proof {
                    stored::tree_at_end(middle, child_node@);
                    stored::grown_further(old(db)@, middle, middle.push(child_node@));
                }
                node.choices[choice] = db.insert_node(child_node)?;
                proof {
                    assert forall|c: int| 0 <= c < 16 && c != choice implies
                        #[trigger] trees_at(db@, node.choices)[c] == before[c] by {
                        stored::tree_at_stays(old(db)@, db@, self.choices@[c]@);
                    }
                    assert(trees_at(db@, node.choices) =~= before.update(
                        choice as int,
                        before[choice as int].insert(path.bytes(), start + 1, new_value),
                    ));
                    branch_tree(db@, node);
                    assert(positions(node.choices) =~= positions(self.choices).update(
                        choice as int,
                        Some(middle.len()),
                    ));
                }
            },
            None => {
                assert(trie.insert_cost(path.bytes(), start) == 0);
                node.path = path.data();
                node.value = Some(value);
                proof {
                    branch_tree(db@, node);
                }
            },
        }
        Ok(Node::Branch(node))
    }

    /// Takes `path` out and gives the new top node, if one is left, and the value that was held.
    pub fn remove(self, db: &mut TrieDB, path: NibbleSlice<'_>) -> (result: Result<
        (Option<Node>, Option<ValueRLP>),
        StoreError,
    >)
        requires
            old(db).wf(),
            self@.sound(old(db)@.len()),
            path.wf(),
        ensures
            node::remove_outcome(
                *old(db),
                *final(db),
                self@,
                path,
                result,
            ),
        decreases self@.rank(), 0nat,
    {
        let mut node: BranchNode = self;
        let mut path: NibbleSlice<'_> = path;
        let ghost start = path.at() as int;
        let ghost before = trees_at(db@, self.choices);
        let ghost trie = stored::tree_of(db@, self@);
        proof {
            branch_parts(db@, self);
            stored::grown_itself(db@);
        }
        // If the path is at the end, give the value away. Otherwise, delegate to the child at the
        // choice, if any.
        let old_value: Option<ValueRLP> = match path.next() {
            Some(nibble) => {
                let choice: usize = nibble.as_u8() as usize;
                let child_ref: NodeRef = node.choices[choice];
                assert(before[choice as int] == stored::tree_at(db@, child_ref@));
                assert(positions(self.choices)[choice as int] == child_ref@);
                assert(trie.remove_cost(path.full(), start) == before[choice as int].remove_cost(
                    path.full(),
                    start + 1,
                ) + (if before[choice as int].remove(path.full(), start + 1).0 is Empty {
                    0nat
                } else {
                    1nat
                }));
                assert(trie.get_reads(path.full(), start) == (before[choice as int] !is Empty));
                if child_ref.is_valid() {
                    proof {
                        stored::tree_not_empty(db@, db@[child_ref@->0 as int]);
                    }
                    let (child_ref, old_value) = remove_below(child_ref, db, path)?;
                    node.choices[choice] = child_ref;
                    proof {
                        assert forall|c: int| 0 <= c < 16 && c != choice implies
                            #[trigger] trees_at(db@, node.choices)[c] == before[c] by {
                            stored::tree_at_stays(old(db)@, db@, self.choices@[c]@);
                        }
                        assert(trees_at(db@, node.choices) =~= before.update(
                            choice as int,
                            before[choice as int].remove(path.full(), start + 1).0,
                        ));
                        laws::remove_gives_held(
                            before[choice as int],
                            path.full(),
                            start + 1,
                        );
                        assert(positions(node.choices) =~= positions(self.choices).update(
                            choice as int,
                            child_ref@,
                        ));
                    }
                    old_value
                } else {
                    assert(before =~= before.update(choice as int, Tree::Empty));
                    None
                }
            },
            None => {
                assert(trie.remove_cost(path.full(), start) == 0);
                let held: Option<ValueRLP> = node.value;
                node.value = None;
                if held.is_some() {
                    node.path = Vec::new();
                }
                held
            },
        };
        if old_value.is_some() {
            node.hash.mark_as_dirty();
        }
        proof {
            branch_tree(db@, node);
            stored::grown_itself(db@);
            assert(writes::removed(old(db)@, self@, path.full(), start) == (
                db@,
                writes::settled(
                    db@,
                    node.hash@,
                    positions(node.choices),
                    node.path@,
                    node::value_view(node.value),
                ),
            ));
        }
        assert(!db.is_open() ==> db@ == old(db)@ && !trie.get_reads(path.full(), start) && trees_at(
            db@,
            node.choices,
        ) == before);
        let left: Option<Node> = node.settle(db)?;
        Ok((left, old_value))
    }

    /// What stays of the branch if what can be spared is spared.
    fn settle(self, db: &TrieDB) -> (result: Result<Option<Node>, StoreError>)
        requires
            db.wf(),
            self@.sound(db@.len()),
        ensures
            ({
                let choices = trees_at(db@, self.choices);
                let reads = self.value is None && tree::has_sole(choices);
                match result {
                    Ok(left) => {
                        &&& db.is_open() || !reads
                        &&& left matches Some(n) ==> n@.sound(db@.len())
                        &&& node::node_view(left) == writes::settled(
                            db@,
                            self.hash@,
                            positions(self.choices),
                            self.path@,
                            node::value_view(self.value),
                        )
                        &&& node::tree_from(db@, left) == tree::settled(
                            self.hash@,
                            choices,
                            self.path@,
                            node::value_view(self.value),
                        )
                    },
                    Err(e) => {
                        &&& e == StoreError::Closed
                        &&& !db.is_open() && reads
                    },
                }
            }),
    {
        let ghost choices = trees_at(db@, self.choices);
        let ghost own = positions(self.choices);
        proof {
            branch_parts(db@, self);
            assert forall|i: int| 0 <= i < 16 implies #[trigger] own[i] == self.choices@[i]@ by {}
            assert forall|i: int| 0 <= i < 16 implies (#[trigger] choices[i] is Empty
                <==> self.choices@[i]@ is None) by {
                if let Some(p) = self.choices@[i]@ {
                    stored::tree_not_empty(db@, db@[p as int]);
                }
            }
        }
        match first_valid(&self.choices, 0) {
            None => {
                assert(tree::all_empty(choices));
                match self.value {
                    Some(value) => Ok(Some(Node::Leaf(LeafNode::new(self.path, value)))),
                    None => Ok(None),
                }
            },
            Some(i) => {
                assert(choices[i as int] !is Empty);
                assert(own[i as int] is Some);
                if self.value.is_some() {
                    return Ok(Some(Node::Branch(self)));
                }
                match first_valid(&self.choices, i + 1) {
                    Some(j) => {
                        assert(choices[j as int] !is Empty);
                        assert(own[j as int] is Some);
                        Ok(Some(Node::Branch(self)))
                    },
                    None => {
                        proof {
                            assert(tree::sole(choices, i as int));
                            facts::sole_unique(choices, i as int);
                            assert(writes::sole_position(own, i as int));
                            writes::sole_position_unique(own, i as int);
                        }
                        let child_ref: NodeRef = self.choices[i];
                        proof {
                            stored::stored_sound(db@, child_ref@->0);
                        }
                        let child_node: Node = db.get_node(child_ref)?.expect(
                            "inconsistent internal tree structure",
                        );
                        proof {
                            stored::tree_parts(db@, child_node@);
                        }
                        let mut prefix: NibbleVec = NibbleVec::new();
                        prefix.push(Nibble::from_u8(i as u8));
                        match child_node {
                            Node::Branch(_) => {
                                let lifted: ExtensionNode = ExtensionNode::new(prefix, child_ref);
                                proof {
                                    stored::tree_parts(db@, lifted@);
                                }
                                Ok(Some(Node::Extension(lifted)))
                            },
                            Node::Extension(extension_node) => {
                                prefix.extend(&extension_node.prefix);
                                let lifted: ExtensionNode = ExtensionNode::new(
                                    prefix,
                                    extension_node.child,
                                );
                                proof {
                                    stored::tree_parts(db@, lifted@);
                                }
                                Ok(Some(Node::Extension(lifted)))
                            },
                            Node::Leaf(leaf_node) => Ok(
                                Some(Node::Leaf(LeafNode::new(leaf_node.path, leaf_node.value))),
                            ),
                        }
                    },
                }
            },
        }
    }

    /// What stands for the trie in its parent, if `path_offset` nibbles led here; the node takes a
    /// note of it.
    pub fn compute_hash(&mut self, db: &TrieDB, path_offset: usize) -> (result: Result<
        NodeHashRef,
        StoreError,
    >)
        requires
            db.wf(),
            old(self)@.sound(db@.len()),
            path_offset + stored::tree_of(db@, old(self)@).span() <= usize::MAX,
        ensures
            node::hash_outcome(*db, old(self)@, final(self)@, path_offset as int, result),
        decreases old(self)@.rank(), 0nat,
    {
        let ghost trees = trees_at(db@, self.choices);
        proof {
            branch_parts(db@, *self);
        }
        if let Some(hash) = self.hash.extract_ref() {
            return Ok(hash);
        }
        let mut hasher: NodeHasher = NodeHasher::new();
        let mut i: usize = 0;
        while i < 16
            invariant
                *self == *old(self),
                self.hash@ is None,
                i <= 16,
                db.wf(),
                lead_below(self.choices, db@.len()),
                forall|c: int|
                    0 <= c < 16 ==> ((#[trigger] self.choices@[c])@ matches Some(p)
                        ==> db@[p as int].rank() < self@.rank()),
                trees == trees_at(db@, self.choices),
                stored::tree_of(db@, self@) == (Tree::Branch {
                    hash: self.hash@,
                    choices: trees,
                    path: self.path@,
                    value: node::value_view(self.value),
                }),
                path_offset + tree::choices_span(trees, 16) <= usize::MAX,
                hasher@ == tree::choices_payload(trees, path_offset + 1, i as nat),
                db.is_open() || forall|c: int| 0 <= c < i ==> trees[c] is Empty,
            decreases 16 - i,
        {
            let child_ref: NodeRef = self.choices[i];
            assert(trees[i as int] == stored::tree_at(db@, child_ref@));
            if child_ref.is_valid() {
                proof {
                    stored::stored_sound(db@, child_ref@->0);
                    stored::tree_not_empty(db@, db@[child_ref@->0 as int]);
                    facts::choice_within_span(trees, 16, i as int);
                }
                let mut child_node: Node = db.get_node(child_ref)?.expect(
                    "inconsistent internal tree structure",
                );
                let child_hash_ref: NodeHashRef = child_node.compute_hash(db, path_offset + 1)?;
                hasher.write_hash(&child_hash_ref);
            } else {
                hasher.write_bytes(&[]);
            }
            i = i + 1;
        }
        match &self.value {
            Some(value) => hasher.write_bytes(value.as_slice()),
            None => hasher.write_bytes(&[]),
        }
        assert(db.is_open() || tree::all_empty(trees));
        Ok(hasher.finalize(&mut self.hash))
    }
}

/// What a removal at a choice that leads to `below` leaves there: the store, and where the node that
/// is left, if any, was stored last.
pub open spec fn removed_below(nodes: Seq<NodeView>, below: NodeView, key: Seq<Nibble>, at: int) -> (
    Seq<NodeView>,
    Option<nat>,
) {
    let (later, left) = writes::removed(nodes, below, key, at);
    match left {
        Some(n) => (later.push(n), Some(later.len())),
        None => (later, None),
    }
}

/// Takes `path` out below a choice and tells where it leads then, and the value that was held.
fn remove_below(child_ref: NodeRef, db: &mut TrieDB, path: NibbleSlice<'_>) -> (result: Result<
    (NodeRef, Option<ValueRLP>),
    StoreError,
>)
    requires
        old(db).wf(),
        child_ref@ matches Some(i) && i < old(db)@.len(),
        path.wf(),
    ensures
        ({
            let (key, at) = (path.full(), path.at() as int);
            let below = old(db)@[child_ref@->0 as int];
            let trie = stored::tree_of(old(db)@, below);
            let (left, held) = trie.remove(key, at);
            let cost = trie.remove_cost(key, at) + (if left is Empty {
                0nat
            } else {
                1nat
            });
            let (all, position) = removed_below(old(db)@, below, key, at);
            &&& final(db).follows(*old(db))
            &&& match result {
                Ok((new_ref, value)) => {
                    &&& old(db).is_open() && old(db).can_store(cost)
                    &&& final(db)@.len() == old(db)@.len() + cost
                    &&& (final(db)@, new_ref@) == (all, position)
                    &&& new_ref@ matches Some(i) ==> i < final(db)@.len()
                    &&& stored::tree_at(final(db)@, new_ref@) == left
                    &&& node::value_view(value) == held
                },
                Err(e) => {
                    &&& !(old(db).is_open() && old(db).can_store(cost))
                    &&& e == old(db).refusal()
                    &&& final(db)@.len() == (if old(db).is_open() {
                        old(db).limit()
                    } else {
                        old(db)@.len()
                    })
                    &&& stored::grown(final(db)@, all)
                },
            }
        }),
    decreases old(db)@[child_ref@->0 as int].rank(), 2nat,
{
    let ghost below = db@[child_ref@->0 as int];
    proof {
        stored::stored_sound(db@, child_ref@->0);
        stored::grown_itself(db@);
        let (later, left) = writes::removed(db@, below, path.full(), path.at() as int);
        writes::removed_grows(db@, below, path.full(), path.at() as int);
        writes::grows_on(later, left->0);
    }
    let child_node: Node = db.get_node(child_ref)?.expect("inconsistent internal tree structure");
    let (child_node, old_value) = child_node.remove(db, path)?;
    let ghost middle = db@;
    match child_node {
        Some(child_node) => {
            proof {
                stored::tree_not_empty(middle, child_node@);
                stored::tree_at_end(middle, child_node@);
                stored::grown_further(old(db)@, middle, middle.push(child_node@));
            }
            let new_ref: NodeRef = db.insert_node(child_node)?;
            Ok((new_ref, old_value))
        },
        None => Ok((NodeRef::default(), old_value)),
    }
}

/// The first choice, from `start` on, that leads to a node.
fn first_valid(choices: &[NodeRef; 16], start: usize) -> (found: Option<usize>)
    requires
        start <= 16,
    ensures
        match found {
            Some(i) => {
                &&& start <= i < 16
                &&& choices@[i as int]@ is Some
                &&& forall|j: int| start <= j < i ==> (#[trigger] choices@[j])@ is None
            },
            None => forall|j: int| start <= j < 16 ==> (#[trigger] choices@[j])@ is None,
        },
{
    let mut i: usize = start;
    while i < 16
        invariant
            start <= i <= 16,
            forall|j: int| start <= j < i ==> (#[trigger] choices@[j])@ is None,
        decreases 16 - i,
    {
        if choices[i].is_valid() {
            return Some(i);
        }
        i = i + 1;
    }
    None
}

} // verus!
