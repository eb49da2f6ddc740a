//! What the store holds, what nodes in it refer to, and what insertion and removal put into it.

use crate::error::StoreError;
use crate::trie::db::TrieDB;
use crate::trie::facts;
use crate::trie::hashing::{HashView, NodeHashRef};
use crate::trie::nibble;
use crate::trie::nibble::{Nibble, NibbleSlice};
use crate::trie::node;
use crate::trie::node::{BranchNode, ExtensionNode, LeafNode, Node, ValueRLP};
use crate::trie::stored;
use crate::trie::stored::NodeView;
use crate::trie::tree;
use crate::trie::tree::Tree;
use crate::trie::writes;
use vstd::prelude::*;

verus! {

/// A store takes as many nodes as fit below its limit, while it is open; otherwise it answers why
/// not.
pub proof fn room_in_the_store(db: TrieDB, count: nat)
    ensures
        count > 0 ==> (db.can_store(count) <==> db.is_open() && db@.len() + count <= db.limit()),
        db.can_store(0),
        db.refusal() == (if db.is_open() {
            StoreError::Full
        } else {
            StoreError::Closed
        }),
        db.wf() <==> db@.len() <= db.limit() && forall|i: int|
            0 <= i < db@.len() ==> (#[trigger] db@[i]).sound(i as nat),
{
}

/// A store that follows another holds its nodes in their places, and is as large and as open.
pub proof fn what_is_stored_stays(later: TrieDB, earlier: TrieDB, i: int)
    requires
        later.follows(earlier),
        0 <= i < earlier@.len(),
    ensures
        i < later@.len(),
        later@[i] == earlier@[i],
        later.limit() == earlier.limit(),
        later.is_open() == earlier.is_open(),
        later@.len() <= later.limit(),
{
    assert(later@.take(earlier@.len() as int)[i] == later@[i]);
}

/// One store has grown to another exactly if the second starts with the first.
pub proof fn growth_keeps_places(earlier: Seq<NodeView>, later: Seq<NodeView>)
    ensures
        stored::grown(earlier, later) <==> earlier.len() <= later.len() && forall|i: int|
            0 <= i < earlier.len() ==> #[trigger] later[i] == earlier[i],
{
    if stored::grown(earlier, later) {
        assert forall|i: int| 0 <= i < earlier.len() implies #[trigger] later[i] == earlier[i] by {
            assert(later.take(earlier.len() as int)[i] == later[i]);
        }
    }
    if earlier.len() <= later.len() && forall|i: int|
        0 <= i < earlier.len() ==> #[trigger] later[i] == earlier[i] {
        assert(later.take(earlier.len() as int) =~= earlier);
    }
}

/// A node may stand in the store if it refers only to nodes before it, if it has a child where it
/// needs one and sixteen choices where it has choices, and if its key can be counted.
pub proof fn sound_by_parts(node: NodeView, bound: nat)
    ensures
        node matches NodeView::Leaf { path, .. } ==> (node.sound(bound) <==> 2 * path.len()
            <= usize::MAX),
        node matches NodeView::Extension { child, .. } ==> (node.sound(bound) <==> (
        child matches Some(i) && i < bound)),
        node matches NodeView::Branch { choices, path, .. } ==> (node.sound(bound)
            <==> choices.len() == 16 && 2 * path.len() <= usize::MAX && forall|c: int|
            0 <= c < choices.len() ==> (#[trigger] choices[c] matches Some(i) ==> i < bound)),
{
    if let NodeView::Branch { choices, .. } = node {
        if node.sound(bound) {
            assert forall|c: int| 0 <= c < choices.len() implies (#[trigger] choices[c] matches Some(
                i,
            ) ==> i < bound) by {
                stored::choice_below_rank(choices, c);
            }
        }
        if forall|c: int|
            0 <= c < choices.len() ==> (#[trigger] choices[c] matches Some(i) ==> i < bound) {
            stored::rank_within(choices, bound);
        }
    }
}

/// A node in the store is the trie with, below it, the tries at the positions that it refers to.
pub proof fn trie_of_a_node(nodes: Seq<NodeView>, node: NodeView)
    requires
        forall|i: int| 0 <= i < nodes.len() ==> (#[trigger] nodes[i]).sound(i as nat),
        node.sound(nodes.len()),
    ensures
        node matches NodeView::Leaf { hash, path, value } ==> stored::tree_of(nodes, node) == (
        Tree::Leaf { hash, path, value }),
        node matches NodeView::Extension { hash, prefix, child: Some(i) } ==> stored::tree_of(
            nodes,
            node,
        ) == (Tree::Extension {
            hash,
            prefix,
            child: Box::new(stored::tree_of(nodes, nodes[i as int])),
        }),
        node matches NodeView::Branch { hash, choices, path, value } ==> (stored::tree_of(
            nodes,
            node,
        ) matches Tree::Branch { hash: h, choices: trees, path: p, value: v } && h == hash && p
            == path && v == value && trees.len() == 16 && forall|c: int|
            0 <= c < 16 ==> #[trigger] trees[c] == (match choices[c] {
                Some(i) => stored::tree_of(nodes, nodes[i as int]),
                None => Tree::Empty,
            })),
{
    stored::tree_parts(nodes, node);
}

/// Nodes stand in the store as they are: with their notes, prefixes, keys, values and references,
/// each choice in its place.
pub proof fn nodes_stand_as_they_are(b: BranchNode, e: ExtensionNode, l: LeafNode)
    ensures
        b@ matches NodeView::Branch { hash, choices, path, value } && {
            &&& hash == b.hash@ && path == b.path@ && choices.len() == 16
            &&& value is Some <==> b.value is Some
            &&& b.value matches Some(v) ==> value == Some(v@)
            &&& forall|i: int| 0 <= i < 16 ==> #[trigger] choices[i] == b.choices@[i]@
        },
        e@ == (NodeView::Extension { hash: e.hash@, prefix: e.prefix@, child: e.child@ }),
        l@ == (NodeView::Leaf { hash: l.hash@, path: l.path@, value: l.value@ }),
        Node::Branch(b)@ == b@ && Node::Extension(e)@ == e@ && Node::Leaf(l)@ == l@,
{
}

/// What may be missing is there with its contents, or not at all.
pub proof fn options_stand_as_they_are(
    nodes: Seq<NodeView>,
    node: Node,
    value: ValueRLP,
    hash: NodeHashRef,
)
    ensures
        node::node_view(Some(node)) == Some(node@) && node::node_view(None) is None,
        node::tree_from(nodes, Some(node)) == stored::tree_of(nodes, node@) && node::tree_from(
            nodes,
            None,
        ) is Empty,
        node::value_view(Some(value)) == Some(value@) && node::value_view(None) is None,
        hash matches NodeHashRef::Inline(bytes) ==> hash@ == HashView::Inline(bytes@),
        hash matches NodeHashRef::Hashed(bytes) ==> hash@ == HashView::Hashed(bytes@),
{
}

/// To note what stands for a node changes nothing else of it.
pub proof fn a_note_changes_nothing_else(node: NodeView, h: HashView)
    ensures
        node.noted(h) == (match node {
            NodeView::Leaf { path, value, .. } => NodeView::Leaf { hash: Some(h), path, value },
            NodeView::Extension { prefix, child, .. } => NodeView::Extension {
                hash: Some(h),
                prefix,
                child,
            },
            NodeView::Branch { choices, path, value, .. } => NodeView::Branch {
                hash: Some(h),
                choices,
                path,
                value,
            },
        }),
{
}

/// Where an insertion parts a prefix behind its first `n` nibbles. The choice of the old part is the
/// old child itself if nothing of the prefix is left, and the rest of the prefix in front of it
/// otherwise; the choice of the key, if it goes on, is the new leaf, and the branch has no value;
/// if the key ends, the branch has the value. No other choice is taken. What stands in front is the
/// left part of the prefix, if any. The rest of the prefix is stored first, then the leaf, then the
/// branch.
pub proof fn where_a_prefix_parts(
    nodes: Seq<NodeView>,
    prefix: Seq<Nibble>,
    child: Option<nat>,
    data: Seq<u8>,
    at: int,
    value: Seq<u8>,
    n: int,
)
    requires
        0 <= at,
        0 <= n < prefix.len(),
        at + n <= 2 * data.len(),
        forall|i: int| 0 <= i < n ==> #[trigger] prefix[i] == nibble::nibbles(data)[at + i],
        at + n < 2 * data.len() ==> nibble::nibbles(data)[at + n] != prefix[n],
    ensures
        ({
            let key = nibble::nibbles(data);
            let (all, top) = writes::parted(nodes, prefix, child, data, at, value);
            let branch = if n == 0 {
                top
            } else {
                all.last()
            };
            let (right, goes_on) = (n + 1 < prefix.len(), at + n < key.len());
            let leaf_at = if right {
                nodes.len() + 1
            } else {
                nodes.len()
            };
            &&& n > 0 ==> top == (NodeView::Extension {
                hash: None,
                prefix: prefix.take(n),
                child: Some((all.len() - 1) as nat),
            })
            &&& all.len() == nodes.len() + (if right {
                1int
            } else {
                0
            }) + (if goes_on {
                1int
            } else {
                0
            }) + (if n > 0 {
                1int
            } else {
                0
            })
            &&& forall|hash: Option<HashView>| #[trigger]
                stored::tree_of(nodes, NodeView::Extension { hash, prefix, child }).insert_cost(
                    data,
                    at,
                ) == all.len() - nodes.len()
            &&& forall|i: int| 0 <= i < nodes.len() ==> #[trigger] all[i] == nodes[i]
            &&& right ==> all[nodes.len() as int] == (NodeView::Extension {
                hash: None,
                prefix: prefix.skip(n + 1),
                child,
            })
            &&& goes_on ==> all[leaf_at as int] == (NodeView::Leaf { hash: None, path: data, value })
            &&& branch matches NodeView::Branch { hash: None, choices, path, value: own } && {
                &&& choices.len() == 16
                &&& choices[prefix[n].value()] == (if right {
                    Some(nodes.len())
                } else {
                    child
                })
                &&& goes_on ==> choices[key[at + n].value()] == Some(leaf_at) && own is None
                    && path.len() == 0
                &&& !goes_on ==> own == Some(value) && path == data
                &&& forall|c: int|
                    0 <= c < 16 && c != prefix[n].value() && !(goes_on && c == key[at + n].value())
                        ==> #[trigger] choices[c] is None
            }
        }),
{
    let key = nibble::nibbles(data);
    assert(key.len() == 2 * data.len());
    agreement_is(key, at, prefix, n);
    facts::stands_at_pointwise(key, at, prefix);
    if at + n < key.len() && nibble::stands_at(key, at, prefix) {
        assert(key[at + n] == prefix[at + n - at]);
    }
    facts::value_range(prefix[n]);
    if at + n < key.len() {
        facts::value_range(key[at + n]);
        if key[at + n].value() == prefix[n].value() {
            facts::value_injective(key[at + n], prefix[n]);
        }
    }
    assert(prefix.take(n).len() == n);
}

/// The agreement is `n` if the first `n` steps agree and the next does not.
proof fn agreement_is(key: Seq<Nibble>, at: int, prefix: Seq<Nibble>, n: int)
    requires
        0 <= at,
        0 <= n < prefix.len(),
        at + n <= key.len(),
        forall|i: int| 0 <= i < n ==> #[trigger] prefix[i] == key[at + i],
        at + n < key.len() ==> key[at + n] != prefix[n],
    ensures
        nibble::agreement(key, at, prefix, 0) == n,
{
    nibble::agreement_is_longest(key, at, prefix, 0);
    let m = nibble::agreement(key, at, prefix, 0) as int;
    if m < n {
        assert(prefix[m] == key[at + m]);
        assert(key[at + m] != prefix[0 + m]);
    }
    if n < m {
        assert(key[at + n] == prefix[0 + n]);
    }
}

/// An insertion along an extension's prefix stores what the insertion at the child stores, then the
/// changed child, and refers to it there; off the prefix it parts the prefix.
pub proof fn where_an_insertion_goes(
    nodes: Seq<NodeView>,
    hash: Option<HashView>,
    prefix: Seq<Nibble>,
    i: nat,
    data: Seq<u8>,
    at: int,
    value: Seq<u8>,
)
    requires
        i < nodes.len(),
        nodes[i as int].sound(i),
        0 <= at <= 2 * data.len(),
    ensures
        ({
            let node = NodeView::Extension { hash, prefix, child: Some(i) };
            let key = nibble::nibbles(data);
            let (all, top) = writes::inserted(nodes, node, data, at, value);
            let (below, child) = writes::inserted(
                nodes,
                nodes[i as int],
                data,
                at + prefix.len(),
                value,
            );
            if at + prefix.len() <= key.len() && key.subrange(at, at + prefix.len()) == prefix {
                &&& all == below.push(child)
                &&& top == (NodeView::Extension { hash: None, prefix, child: Some(below.len()) })
            } else {
                (all, top) == writes::parted(nodes, prefix, Some(i), data, at, value)
            }
        }),
{
}

/// An insertion at a branch changes the choice of the key's next nibble, to where the changed child
/// or the new leaf was stored last, or else the branch's own value.
pub proof fn where_an_insertion_branches(
    nodes: Seq<NodeView>,
    node: NodeView,
    data: Seq<u8>,
    at: int,
    value: Seq<u8>,
)
    requires
        forall|i: int| 0 <= i < nodes.len() ==> (#[trigger] nodes[i]).sound(i as nat),
        node.sound(nodes.len()),
        0 <= at <= 2 * data.len(),
    ensures
        node matches NodeView::Branch { choices, path, value: own, .. } ==> ({
            let key = nibble::nibbles(data);
            let (all, top) = writes::inserted(nodes, node, data, at, value);
            if at == key.len() {
                &&& all == nodes
                &&& top == (NodeView::Branch {
                    hash: None,
                    choices,
                    path: data,
                    value: Some(value),
                })
            } else {
                let c = key[at].value();
                let (below, child) = match choices[c] {
                    Some(i) => writes::inserted(nodes, nodes[i as int], data, at + 1, value),
                    None => (nodes, NodeView::Leaf { hash: None, path: data, value }),
                };
                &&& all == below.push(child)
                &&& top == (NodeView::Branch {
                    hash: None,
                    choices: choices.update(c, Some(below.len())),
                    path,
                    value: own,
                })
            }
        }),
{
    if let NodeView::Branch { choices, .. } = node {
        let key = nibble::nibbles(data);
        if at < key.len() {
            facts::value_range(key[at]);
            stored::tree_parts(nodes, node);
            assert(choices[key[at].value()] matches Some(i) ==> nodes[i as int].rank()
                < node.rank());
        }
    }
}

/// An insertion beside a leaf whose key agrees with the new one in the next `n` nibbles. What goes on
/// is a choice of the branch, at its next nibble, and what ends is the branch's value. No other
/// choice is taken. What the keys have in common, if anything, stands in front. The new leaf is
/// stored first, then the old one, then the branch.
pub proof fn where_a_leaf_parts(
    nodes: Seq<NodeView>,
    hash: Option<HashView>,
    path: Seq<u8>,
    own_value: Seq<u8>,
    data: Seq<u8>,
    at: int,
    value: Seq<u8>,
    n: int,
)
    requires
        0 <= at,
        0 <= n,
        at + n <= 2 * data.len(),
        at + n <= 2 * path.len(),
        forall|i: int|
            at <= i < at + n ==> #[trigger] nibble::nibbles(data)[i] == nibble::nibbles(path)[i],
        at + n < 2 * data.len() || at + n < 2 * path.len(),
        at + n < 2 * data.len() && at + n < 2 * path.len() ==> nibble::nibbles(data)[at + n]
            != nibble::nibbles(path)[at + n],
    ensures
        ({
            let (key, old) = (nibble::nibbles(data), nibble::nibbles(path));
            let node = NodeView::Leaf { hash, path, value: own_value };
            let (all, top) = writes::inserted(nodes, node, data, at, value);
            let branch = if n == 0 {
                top
            } else {
                all.last()
            };
            let m = at + n;
            let (new_on, old_on) = (m < key.len(), m < old.len());
            let old_at = if new_on {
                nodes.len() + 1
            } else {
                nodes.len()
            };
            &&& n > 0 ==> top == (NodeView::Extension {
                hash: None,
                prefix: key.subrange(at, m),
                child: Some((all.len() - 1) as nat),
            })
            &&& all.len() == nodes.len() + (if new_on {
                1int
            } else {
                0
            }) + (if old_on {
                1int
            } else {
                0
            }) + (if n > 0 {
                1int
            } else {
                0
            })
            &&& stored::tree_of(nodes, node).insert_cost(data, at) == all.len() - nodes.len()
            &&& forall|i: int| 0 <= i < nodes.len() ==> #[trigger] all[i] == nodes[i]
            &&& new_on ==> all[nodes.len() as int] == (NodeView::Leaf {
                hash: None,
                path: data,
                value,
            })
            &&& old_on ==> all[old_at as int] == (NodeView::Leaf {
                hash: None,
                path,
                value: own_value,
            })
            &&& branch matches NodeView::Branch { hash: None, choices, path: p, value: v } && {
                &&& choices.len() == 16
                &&& new_on ==> choices[key[m].value()] == Some(nodes.len())
                &&& old_on ==> choices[old[m].value()] == Some(old_at)
                &&& !new_on ==> v == Some(value) && p == data
                &&& !old_on ==> v == Some(own_value) && p == path
                &&& new_on && old_on ==> v is None && p.len() == 0
                &&& forall|c: int|
                    0 <= c < 16 && !(new_on && c == key[m].value()) && !(old_on && c
                        == old[m].value()) ==> #[trigger] choices[c] is None
            }
        }),
{
    let (key, old) = (nibble::nibbles(data), nibble::nibbles(path));
    let m = at + n;
    assert(key.len() == 2 * data.len() && old.len() == 2 * path.len());
    nibble::agreement_is_longest(key, at, old, at);
    let k = nibble::agreement(key, at, old, at) as int;
    if k < n {
        assert(key[at + k] == old[at + k]);
    }
    if n < k {
        assert(key[at + n] == old[at + n]);
    }
    facts::same_rest_pointwise(old, key, at);
    if m < key.len() {
        facts::value_range(key[m]);
    }
    if m < old.len() {
        facts::value_range(old[m]);
    }
    if m < key.len() && m < old.len() && key[m].value() == old[m].value() {
        facts::value_injective(key[m], old[m]);
    }
    if tree::same_rest(old, key, at) && m < key.len() {
        assert(old[m] == key[m]);
    }
}

/// An insertion for a leaf's own key changes its value and stores nothing.
pub proof fn where_a_leaf_is_changed(
    nodes: Seq<NodeView>,
    hash: Option<HashView>,
    path: Seq<u8>,
    own_value: Seq<u8>,
    at: int,
    value: Seq<u8>,
)
    requires
        0 <= at <= 2 * path.len(),
    ensures
        writes::inserted(nodes, NodeView::Leaf { hash, path, value: own_value }, path, at, value)
            == (nodes, NodeView::Leaf { hash: None, path, value }),
{
    facts::same_rest_pointwise(nibble::nibbles(path), nibble::nibbles(path), at);
}

/// A removal off an extension's prefix leaves the node and the store as they are. Along the prefix,
/// if nothing is left of the child, nothing is left; a branch is stored last and referred to there;
/// an extension's prefix is put behind this one's and its child is kept; a leaf takes the
/// extension's place.
pub proof fn where_a_removal_goes(
    nodes: Seq<NodeView>,
    hash: Option<HashView>,
    prefix: Seq<Nibble>,
    i: nat,
    key: Seq<Nibble>,
    at: int,
)
    requires
        i < nodes.len(),
        nodes[i as int].sound(i),
        0 <= at <= key.len(),
    ensures
        ({
            let node = NodeView::Extension { hash, prefix, child: Some(i) };
            let (all, left) = writes::removed(nodes, node, key, at);
            let (below, child) = writes::removed(nodes, nodes[i as int], key, at + prefix.len());
            let held = stored::tree_of(nodes, nodes[i as int]).get(key, at + prefix.len());
            if at + prefix.len() <= key.len() && key.subrange(at, at + prefix.len()) == prefix {
                match child {
                    None => all == below && left is None,
                    Some(NodeView::Branch { .. }) => {
                        &&& all == below.push(child->0)
                        &&& left == Some(
                            NodeView::Extension {
                                hash: if held is Some {
                                    None
                                } else {
                                    hash
                                },
                                prefix,
                                child: Some(below.len()),
                            },
                        )
                    },
                    Some(NodeView::Extension { hash: h, prefix: p, child: c }) => {
                        &&& all == below
                        &&& left == Some(
                            NodeView::Extension { hash: h, prefix: prefix + p, child: c },
                        )
                    },
                    Some(NodeView::Leaf { .. }) => all == below && left == child,
                }
            } else {
                all == nodes && left == Some(node)
            }
        }),
{
}

/// A leaf is left as it is, unless its own key is taken out: then nothing is left. Nothing is stored.
pub proof fn where_a_leaf_is_removed(
    nodes: Seq<NodeView>,
    hash: Option<HashView>,
    path: Seq<u8>,
    value: Seq<u8>,
    key: Seq<Nibble>,
    at: int,
)
    requires
        0 <= at <= key.len(),
    ensures
        ({
            let node = NodeView::Leaf { hash, path, value };
            let own = nibble::nibbles(path);
            writes::removed(nodes, node, key, at) == (if key.len() == own.len() && forall|i: int|
                at <= i < key.len() ==> key[i] == #[trigger] own[i] {
                (nodes, None)
            } else {
                (nodes, Some(node))
            })
        }),
{
    let own = nibble::nibbles(path);
    if own.len() == key.len() {
        facts::same_rest_pointwise(own, key, at);
    }
}

/// What takes the place of a branch after a removal: if no choice is taken, a leaf with its value, if
/// it has one; if one is taken and there is no value, the node there, behind the nibble of that
/// number; the branch itself otherwise.
pub proof fn where_a_branch_settles(
    nodes: Seq<NodeView>,
    hash: Option<HashView>,
    choices: Seq<Option<nat>>,
    path: Seq<u8>,
    value: Option<Seq<u8>>,
    next: Nibble,
)
    requires
        choices.len() == 16,
    ensures
        ({
            let left = writes::settled(nodes, hash, choices, path, value);
            let i = next.value();
            &&& (forall|c: int| 0 <= c < 16 ==> #[trigger] choices[c] is None) ==> left == (
            match value {
                Some(v) => Some(NodeView::Leaf { hash: None, path, value: v }),
                None => None,
            })
            &&& choices[i] is Some && value is None && (forall|c: int|
                0 <= c < 16 && c != i ==> #[trigger] choices[c] is None) ==> left == Some(
                match nodes[choices[i]->0 as int] {
                    NodeView::Leaf { path: own, value: v, .. } => NodeView::Leaf {
                        hash: None,
                        path: own,
                        value: v,
                    },
                    NodeView::Extension { prefix, child, .. } => NodeView::Extension {
                        hash: None,
                        prefix: seq![next] + prefix,
                        child,
                    },
                    NodeView::Branch { .. } => NodeView::Extension {
                        hash: None,
                        prefix: seq![next],
                        child: choices[i],
                    },
                },
            )
            &&& choices[i] is Some && (value is Some || exists|c: int|
                0 <= c < 16 && c != i && #[trigger] choices[c] is Some) ==> left == Some(
                NodeView::Branch { hash, choices, path, value },
            )
        }),
{
    facts::value_range(next);
    let i = next.value();
    if choices[i] is Some && value is None {
        if forall|c: int| 0 <= c < 16 && c != i ==> #[trigger] choices[c] is None {
            assert(writes::sole_position(choices, i));
            writes::sole_position_unique(choices, i);
        }
        if exists|c: int| 0 <= c < 16 && c != i && #[trigger] choices[c] is Some {
            let c = choose|c: int| 0 <= c < 16 && c != i && #[trigger] choices[c] is Some;
            if exists|j: int| writes::sole_position(choices, j) {
                let j = choose|j: int| writes::sole_position(choices, j);
                assert(choices[i] is None || choices[c] is None);
            }
        }
    }
}

/// A removal at a branch changes the choice of the key's next nibble, to where what is left of the
/// child was stored last, or else takes the branch's own value. Then the branch settles.
pub proof fn where_a_removal_branches(
    nodes: Seq<NodeView>,
    node: NodeView,
    key: Seq<Nibble>,
    at: int,
)
    requires
        forall|i: int| 0 <= i < nodes.len() ==> (#[trigger] nodes[i]).sound(i as nat),
        node.sound(nodes.len()),
        0 <= at <= key.len(),
    ensures
        node matches NodeView::Branch { hash, choices, path, value } ==> ({
            let (all, left) = writes::removed(nodes, node, key, at);
            if at == key.len() {
                &&& all == nodes
                &&& value is Some ==> left == writes::settled(
                    nodes,
                    None,
                    choices,
                    Seq::empty(),
                    None,
                )
                &&& value is None ==> left == writes::settled(nodes, hash, choices, path, None)
            } else {
                match choices[key[at].value()] {
                    None => all == nodes && left == writes::settled(
                        nodes,
                        hash,
                        choices,
                        path,
                        value,
                    ),
                    Some(i) => {
                        let (below, child) = writes::removed(nodes, nodes[i as int], key, at + 1);
                        let held = stored::tree_of(nodes, nodes[i as int]).get(key, at + 1);
                        let position = match child {
                            Some(_) => Some(below.len()),
                            None => None,
                        };
                        &&& child matches Some(n) ==> all == below.push(n)
                        &&& child is None ==> all == below
                        &&& left == writes::settled(
                            all,
                            if held is Some {
                                None
                            } else {
                                hash
                            },
                            choices.update(key[at].value(), position),
                            path,
                            value,
                        )
                    },
                }
            }
        }),
{
    if let NodeView::Branch { choices, .. } = node {
        if at < key.len() {
            facts::value_range(key[at]);
            stored::tree_parts(nodes, node);
            assert(choices[key[at].value()] matches Some(i) ==> nodes[i as int].rank()
                < node.rank());
        }
    }
}

/// An insertion succeeds exactly if there is room for the nodes that it stores. Then the store and
/// the new top node are those, and every key that leads to the node finds the new value if it is
/// the key put in, and what it found before otherwise. If there is no room, the error says why, the
/// first of the nodes are stored while the store is open, and none if it is closed.
pub proof fn what_an_insertion_gives(
    before: TrieDB,
    after: TrieDB,
    node: NodeView,
    path: NibbleSlice<'_>,
    value: Seq<u8>,
    result: Result<Node, StoreError>,
    key: Seq<Nibble>,
)
    requires
        node::insert_outcome(before, after, node, path, value, result),
        stored::tree_of(before@, node).fits(path.at() as int),
        path.wf(),
        path.at() <= key.len(),
    ensures
        ({
            let (data, at) = (path.bytes(), path.at() as int);
            let trie = stored::tree_of(before@, node);
            let cost = trie.insert_cost(data, at);
            let all = writes::inserted(before@, node, data, at, value);
            &&& after.limit() == before.limit() && after.is_open() == before.is_open()
            &&& after.wf()
            &&& stored::grown(before@, after@) && stored::grown(after@, all.0)
            &&& result is Ok <==> cost == 0 || (before.is_open() && before@.len() + cost
                <= before.limit())
            &&& result matches Ok(top) ==> {
                &&& after@.len() == before@.len() + cost
                &&& after@ == all.0 && top@ == all.1
                &&& top@.sound(after@.len())
                &&& stored::tree_of(after@, top@) == trie.insert(data, at, value)
                &&& stored::tree_of(after@, top@).get(key, at) == (if key.len() == 2 * data.len()
                    && forall|i: int|
                    at <= i < key.len() ==> key[i] == #[trigger] nibble::nibbles(data)[i] {
                    Some(value)
                } else {
                    trie.get(key, at)
                })
            }
            &&& result matches Err(e) ==> {
                &&& e == (if before.is_open() {
                    StoreError::Full
                } else {
                    StoreError::Closed
                })
                &&& after@.len() == (if before.is_open() {
                    before.limit()
                } else {
                    before@.len()
                })
            }
        }),
{
    let (data, at) = (path.bytes(), path.at() as int);
    let all = writes::inserted(before@, node, data, at, value).0;
    stored::grown_itself(all);
    crate::trie::laws::insert_then_get(stored::tree_of(before@, node), data, at, value, key);
    let own = nibble::nibbles(data);
    assert(own.len() == 2 * data.len());
    facts::same_rest_pointwise(own, key, at);
}

/// What an insertion writes does not depend on whether the child of an extension can be read.
pub proof fn what_an_insertion_writes(
    before: TrieDB,
    after: TrieDB,
    node: NodeView,
    path: NibbleSlice<'_>,
    value: Seq<u8>,
    result: Result<Node, StoreError>,
)
    requires
        node::insert_writes(before, after, node, path, value, result),
    ensures
        ({
            let (data, at) = (path.bytes(), path.at() as int);
            let cost = stored::tree_of(before@, node).insert_cost(data, at);
            let all = writes::inserted(before@, node, data, at, value);
            &&& after.limit() == before.limit() && after.is_open() == before.is_open()
            &&& stored::grown(before@, after@) && stored::grown(after@, all.0)
            &&& result is Ok <==> cost == 0 || (before.is_open() && before@.len() + cost
                <= before.limit())
            &&& result matches Ok(top) ==> after@ == all.0 && top@ == all.1 && after@.len()
                == before@.len() + cost
            &&& result matches Err(e) ==> {
                &&& e == (if before.is_open() {
                    StoreError::Full
                } else {
                    StoreError::Closed
                })
                &&& after@.len() == (if before.is_open() {
                    before.limit()
                } else {
                    before@.len()
                })
            }
        }),
{
    stored::grown_itself(
        writes::inserted(before@, node, path.bytes(), path.at() as int, value).0,
    );
}

/// A removal succeeds exactly if what it has to read can be read and there is room for the nodes
/// that it stores. Then the store and what is left are those, the value is the one that was held,
/// and a trie in which every value stands where its key leads holds nothing for the key then, and
/// for every other key what it held before. Otherwise the error says why, the first of the nodes
/// are stored while the store is open, and none if it is closed.
pub proof fn what_a_removal_gives(
    before: TrieDB,
    after: TrieDB,
    node: NodeView,
    path: NibbleSlice<'_>,
    result: Result<(Option<Node>, Option<ValueRLP>), StoreError>,
    way: Seq<Nibble>,
    key: Seq<Nibble>,
)
    requires
        node::remove_outcome(before, after, node, path, result),
        path.wf(),
    ensures
        ({
            let (full, at) = (nibble::nibbles(path.bytes()), path.at() as int);
            let trie = stored::tree_of(before@, node);
            let cost = trie.remove_cost(full, at);
            let all = writes::removed(before@, node, full, at);
            &&& after.limit() == before.limit() && after.is_open() == before.is_open()
            &&& after.wf()
            &&& stored::grown(before@, after@) && stored::grown(after@, all.0)
            &&& result is Ok <==> (before.is_open() || !trie.remove_reads(full, at)) && (cost == 0
                || (before.is_open() && before@.len() + cost <= before.limit()))
            &&& result matches Ok((left, value)) ==> {
                &&& after@.len() == before@.len() + cost
                &&& after@ == all.0 && node::node_view(left) == all.1
                &&& left matches Some(top) ==> top@.sound(after@.len())
                &&& (node::tree_from(after@, left), node::value_view(value)) == trie.remove(
                    full,
                    at,
                )
                &&& node::value_view(value) == trie.get(full, at)
                &&& trie.placed(way) && way.len() == at <= key.len() ==> node::tree_from(
                    after@,
                    left,
                ).get(key, at) == (if key.len() == full.len() && forall|i: int|
                    at <= i < key.len() ==> key[i] == #[trigger] full[i] {
                    None
                } else {
                    trie.get(key, at)
                })
            }
            &&& result matches Err(e) ==> {
                &&& e == (if before.is_open() {
                    StoreError::Full
                } else {
                    StoreError::Closed
                })
                &&& after@.len() == (if before.is_open() {
                    before.limit()
                } else {
                    before@.len()
                })
            }
        }),
{
    let (full, at) = (nibble::nibbles(path.bytes()), path.at() as int);
    let trie = stored::tree_of(before@, node);
    stored::grown_itself(writes::removed(before@, node, full, at).0);
    crate::trie::laws::remove_gives_held(trie, full, at);
    if trie.placed(way) && way.len() == at <= key.len() {
        crate::trie::laws::remove_then_get(trie, way, full, key);
        facts::same_rest_pointwise(full, key, at);
    }
}

/// Hashing succeeds exactly if what it has to read can be read. Then it gives what stands for the
/// trie and notes it in the node; otherwise it changes nothing.
pub proof fn what_hashing_gives(
    db: TrieDB,
    before: NodeView,
    after: NodeView,
    path_offset: int,
    result: Result<NodeHashRef, StoreError>,
)
    requires
        node::hash_outcome(db, before, after, path_offset, result),
    ensures
        result is Ok <==> db.is_open() || !stored::tree_of(db@, before).hash_reads(),
        result matches Ok(hash) ==> {
            &&& hash@ == stored::tree_of(db@, before).hashed(path_offset)
            &&& after == before.noted(hash@)
        },
        result matches Err(e) ==> e == StoreError::Closed && after == before,
{
}

} // verus!
