//! What insertion and removal put into the store, node by node, and where.

use crate::trie::hashing::HashView;
use crate::trie::nibble;
use crate::trie::nibble::Nibble;
use crate::trie::stored;
use crate::trie::stored::NodeView;
use crate::trie::tree;
use vstd::prelude::*;

verus! {

/// A fresh leaf.
pub open spec fn leaf(path: Seq<u8>, value: Seq<u8>) -> NodeView {
    NodeView::Leaf { hash: None, path, value }
}

/// A fresh extension.
pub open spec fn extension(prefix: Seq<Nibble>, child: Option<nat>) -> NodeView {
    NodeView::Extension { hash: None, prefix, child }
}

/// A fresh branch without a value of its own.
pub open spec fn fork(choices: Seq<Option<nat>>) -> NodeView {
    NodeView::Branch { hash: None, choices, path: Seq::empty(), value: None }
}

/// A fresh branch with a value of its own.
pub open spec fn fork_with_value(
    choices: Seq<Option<nat>>,
    path: Seq<u8>,
    value: Seq<u8>,
) -> NodeView {
    NodeView::Branch { hash: None, choices, path, value: Some(value) }
}

/// Sixteen choices that lead to no node.
pub open spec fn no_positions() -> Seq<Option<nat>> {
    Seq::new(16, |i: int| None)
}

/// Whether the choice `i` is the only one that leads to a node.
pub open spec fn sole_position(choices: Seq<Option<nat>>, i: int) -> bool {
    &&& 0 <= i < choices.len()
    &&& choices[i] is Some
    &&& forall|j: int| 0 <= j < choices.len() && j != i ==> choices[j] is None
}

/// A branch that becomes the top node: as it is, or stored and behind a fresh extension by
/// `prefix`, if there is anything to extend by.
pub open spec fn fronted(nodes: Seq<NodeView>, prefix: Seq<Nibble>, branch: NodeView) -> (
    Seq<NodeView>,
    NodeView,
) {
    if prefix.len() == 0 {
        (nodes, branch)
    } else {
        (nodes.push(branch), extension(prefix, Some(nodes.len())))
    }
}

/// The store and the new top node after an insertion that parts an extension's prefix. Stored are,
/// in this order: the right part of the prefix, if any, in front of the old child; the leaf, if the
/// key goes on; the branch, if a left part of the prefix stands in front of it.
pub open spec fn parted(
    nodes: Seq<NodeView>,
    prefix: Seq<Nibble>,
    child: Option<nat>,
    data: Seq<u8>,
    at: int,
    value: Seq<u8>,
) -> (Seq<NodeView>, NodeView) {
    let key = nibble::nibbles(data);
    let n = nibble::agreement(key, at, prefix, 0) as int;
    let right = prefix.skip(n + 1);
    let (first, old_part) = if right.len() == 0 {
        (nodes, child)
    } else {
        (nodes.push(extension(right, child)), Some(nodes.len()))
    };
    let choices = no_positions().update(prefix[n].value(), old_part);
    let (second, branch) = if at + n < key.len() {
        (
            first.push(leaf(data, value)),
            fork(choices.update(key[at + n].value(), Some(first.len()))),
        )
    } else {
        (first, fork_with_value(choices, data, value))
    };
    fronted(second, prefix.take(n), branch)
}

/// The store and the new top node after an insertion beside a leaf. Stored are, in this order: the
/// new leaf, if its key goes on; the old leaf, if its key goes on; the branch, if what the keys have
/// in common stands in front of it.
pub open spec fn beside(
    nodes: Seq<NodeView>,
    path: Seq<u8>,
    own_value: Seq<u8>,
    data: Seq<u8>,
    at: int,
    value: Seq<u8>,
) -> (Seq<NodeView>, NodeView) {
    let key = nibble::nibbles(data);
    let own = nibble::nibbles(path);
    let m = at + nibble::agreement(key, at, own, at);
    let (second, branch) = if m == key.len() {
        (
            nodes.push(leaf(path, own_value)),
            fork_with_value(
                no_positions().update(own[m].value(), Some(nodes.len())),
                data,
                value,
            ),
        )
    } else if m == own.len() {
        (
            nodes.push(leaf(data, value)),
            fork_with_value(
                no_positions().update(key[m].value(), Some(nodes.len())),
                path,
                own_value,
            ),
        )
    } else {
        (
            nodes.push(leaf(data, value)).push(leaf(path, own_value)),
            fork(
                no_positions().update(own[m].value(), Some(nodes.len() + 1)).update(
                    key[m].value(),
                    Some(nodes.len()),
                ),
            ),
        )
    };
    fronted(second, key.subrange(at, m), branch)
}

/// The store and the new top node after `value` was put in for the key `data`, of which the first
/// `at` nibbles led to `node`. A changed child is stored last and referred to there.
pub open spec fn inserted(
    nodes: Seq<NodeView>,
    node: NodeView,
    data: Seq<u8>,
    at: int,
    value: Seq<u8>,
) -> (Seq<NodeView>, NodeView)
    decreases node.rank(),
{
    let key = nibble::nibbles(data);
    match node {
        NodeView::Leaf { path, value: own_value, .. } => if tree::same_rest(
            nibble::nibbles(path),
            key,
            at,
        ) {
            (nodes, leaf(path, value))
        } else {
            beside(nodes, path, own_value, data, at, value)
        },
        NodeView::Extension { prefix, child, .. } => if nibble::stands_at(key, at, prefix) {
            match child {
                Some(i) if i < nodes.len() && nodes[i as int].rank() < node.rank() => {
                    let (later, top) = inserted(
                        nodes,
                        nodes[i as int],
                        data,
                        at + prefix.len(),
                        value,
                    );
                    (later.push(top), extension(prefix, Some(later.len())))
                },
                _ => (nodes, node),
            }
        } else {
            parted(nodes, prefix, child, data, at, value)
        },
        NodeView::Branch { choices, path, value: own_value, .. } => if 0 <= at < key.len() {
            let c = key[at].value();
            let (later, top) = match choices[c] {
                Some(i) if i < nodes.len() && nodes[i as int].rank() < node.rank() => inserted(
                    nodes,
                    nodes[i as int],
                    data,
                    at + 1,
                    value,
                ),
                _ => (nodes, leaf(data, value)),
            };
            (
                later.push(top),
                NodeView::Branch {
                    hash: None,
                    choices: choices.update(c, Some(later.len())),
                    path,
                    value: own_value,
                },
            )
        } else {
            (nodes, fork_with_value(choices, data, value))
        },
    }
}

/// What takes the place of a branch whose only node is `node`, at `position` and the choice `i`.
pub open spec fn lifted(i: int, position: Option<nat>, node: NodeView) -> NodeView {
    match node {
        NodeView::Leaf { path, value, .. } => leaf(path, value),
        NodeView::Extension { prefix, child, .. } => extension(
            seq![Nibble::of(i)] + prefix,
            child,
        ),
        NodeView::Branch { .. } => extension(seq![Nibble::of(i)], position),
    }
}

/// The branch with these parts, or what takes its place if it has fewer than two things to tell
/// apart.
pub open spec fn settled(
    nodes: Seq<NodeView>,
    hash: Option<HashView>,
    choices: Seq<Option<nat>>,
    path: Seq<u8>,
    value: Option<Seq<u8>>,
) -> Option<NodeView> {
    if forall|i: int| 0 <= i < choices.len() ==> choices[i] is None {
        match value {
            Some(v) => Some(leaf(path, v)),
            None => None,
        }
    } else if value is None && exists|i: int| sole_position(choices, i) {
        let i = choose|i: int| sole_position(choices, i);
        Some(lifted(i, choices[i], nodes[choices[i]->0 as int]))
    } else {
        Some(NodeView::Branch { hash, choices, path, value })
    }
}

/// The store and what takes the place of an extension by `prefix`, if `child` is left of its child:
/// a branch is stored last and referred to there, and of an extension the child is kept.
pub open spec fn rejoined(
    nodes: Seq<NodeView>,
    hash: Option<HashView>,
    prefix: Seq<Nibble>,
    child: Option<NodeView>,
) -> (Seq<NodeView>, Option<NodeView>) {
    match child {
        None => (nodes, None),
        Some(NodeView::Branch { .. }) => (
            nodes.push(child->0),
            Some(NodeView::Extension { hash, prefix, child: Some(nodes.len()) }),
        ),
        Some(NodeView::Extension { hash: inner_hash, prefix: inner, child: grandchild }) => (
            nodes,
            Some(
                NodeView::Extension {
                    hash: inner_hash,
                    prefix: prefix + inner,
                    child: grandchild,
                },
            ),
        ),
        Some(NodeView::Leaf { .. }) => (nodes, child),
    }
}

/// A node's note of what stands for it, unless a key for which it held a value was taken out.
pub open spec fn kept(hash: Option<HashView>, held: Option<Seq<u8>>) -> Option<HashView> {
    if held is Some {
        None
    } else {
        hash
    }
}

/// The store and the new top node, if one is left, after `key` was taken out, of which the first
/// `at` nibbles led to `node`.
pub open spec fn removed(nodes: Seq<NodeView>, node: NodeView, key: Seq<Nibble>, at: int) -> (
    Seq<NodeView>,
    Option<NodeView>,
)
    decreases node.rank(),
{
    match node {
        NodeView::Leaf { path, .. } => if tree::same_rest(nibble::nibbles(path), key, at) {
            (nodes, None)
        } else {
            (nodes, Some(node))
        },
        NodeView::Extension { hash, prefix, child } => if nibble::stands_at(key, at, prefix) {
            match child {
                Some(i) if i < nodes.len() && nodes[i as int].rank() < node.rank() => {
                    let below = nodes[i as int];
                    let held = stored::tree_of(nodes, below).get(key, at + prefix.len());
                    let (later, left) = removed(nodes, below, key, at + prefix.len());
                    rejoined(later, kept(hash, held), prefix, left)
                },
                _ => (nodes, Some(node)),
            }
        } else {
            (nodes, Some(node))
        },
        NodeView::Branch { hash, choices, path, value } => if 0 <= at < key.len() {
            let c = key[at].value();
            match choices[c] {
                Some(i) if i < nodes.len() && nodes[i as int].rank() < node.rank() => {
                    let below = nodes[i as int];
                    let held = stored::tree_of(nodes, below).get(key, at + 1);
                    let (later, left) = removed(nodes, below, key, at + 1);
                    let (last, position) = match left {
                        Some(n) => (later.push(n), Some(later.len())),
                        None => (later, None),
                    };
                    (
                        last,
                        settled(
                            last,
                            kept(hash, held),
                            choices.update(c, position),
                            path,
                            value,
                        ),
                    )
                },
                _ => (nodes, settled(nodes, hash, choices, path, value)),
            }
        } else if value is Some {
            (nodes, settled(nodes, None, choices, Seq::empty(), None))
        } else {
            (nodes, settled(nodes, hash, choices, path, value))
        },
    }
}

/// At most one choice is the only one that leads to a node.
pub proof fn sole_position_unique(choices: Seq<Option<nat>>, i: int)
    requires
        sole_position(choices, i),
    ensures
        exists|j: int| sole_position(choices, j),
        (choose|j: int| sole_position(choices, j)) == i,
{
    let j = choose|j: int| sole_position(choices, j);
    assert(sole_position(choices, j));
}

/// A branch that becomes the top node adds to the store.
proof fn fronted_grows(nodes: Seq<NodeView>, prefix: Seq<Nibble>, branch: NodeView)
    ensures
        stored::grown(nodes, fronted(nodes, prefix, branch).0),
{
    stored::grown_itself(nodes);
    stored::grown_by_one(nodes, branch);
}

/// An insertion that parts a prefix adds to the store, step by step.
pub proof fn parted_grows(
    nodes: Seq<NodeView>,
    prefix: Seq<Nibble>,
    child: Option<nat>,
    data: Seq<u8>,
    at: int,
    value: Seq<u8>,
)
    ensures
        ({
            let key = nibble::nibbles(data);
            let n = nibble::agreement(key, at, prefix, 0) as int;
            let right = prefix.skip(n + 1);
            let all = parted(nodes, prefix, child, data, at, value).0;
            let first = if right.len() == 0 {
                nodes
            } else {
                nodes.push(extension(right, child))
            };
            &&& stored::grown(nodes, all)
            &&& stored::grown(first, all)
            &&& at + n < key.len() ==> stored::grown(first.push(leaf(data, value)), all)
        }),
{
    let key = nibble::nibbles(data);
    let n = nibble::agreement(key, at, prefix, 0) as int;
    let right = prefix.skip(n + 1);
    let all = parted(nodes, prefix, child, data, at, value).0;
    let (first, old_part) = if right.len() == 0 {
        (nodes, child)
    } else {
        (nodes.push(extension(right, child)), Some(nodes.len()))
    };
    let choices = no_positions().update(prefix[n].value(), old_part);
    stored::grown_itself(nodes);
    stored::grown_by_one(nodes, extension(right, child));
    if at + n < key.len() {
        let second = first.push(leaf(data, value));
        stored::grown_by_one(first, leaf(data, value));
        fronted_grows(
            second,
            prefix.take(n),
            fork(choices.update(key[at + n].value(), Some(first.len()))),
        );
        stored::grown_further(first, second, all);
    } else {
        fronted_grows(first, prefix.take(n), fork_with_value(choices, data, value));
    }
    stored::grown_further(nodes, first, all);
}

/// An insertion beside a leaf adds to the store, step by step.
pub proof fn beside_grows(
    nodes: Seq<NodeView>,
    path: Seq<u8>,
    own_value: Seq<u8>,
    data: Seq<u8>,
    at: int,
    value: Seq<u8>,
)
    ensures
        ({
            let key = nibble::nibbles(data);
            let own = nibble::nibbles(path);
            let m = at + nibble::agreement(key, at, own, at);
            let all = beside(nodes, path, own_value, data, at, value).0;
            let first = nodes.push(leaf(data, value));
            &&& stored::grown(nodes, all)
            &&& m == key.len() ==> stored::grown(nodes.push(leaf(path, own_value)), all)
            &&& m != key.len() ==> stored::grown(first, all)
            &&& m != key.len() && m != own.len() ==> stored::grown(
                first.push(leaf(path, own_value)),
                all,
            )
        }),
{
    let key = nibble::nibbles(data);
    let own = nibble::nibbles(path);
    let m = at + nibble::agreement(key, at, own, at);
    let all = beside(nodes, path, own_value, data, at, value).0;
    let prefix = key.subrange(at, m);
    let first = nodes.push(leaf(data, value));
    stored::grown_by_one(nodes, leaf(path, own_value));
    stored::grown_by_one(nodes, leaf(data, value));
    if m == key.len() {
        let second = nodes.push(leaf(path, own_value));
        let choices = no_positions().update(own[m].value(), Some(nodes.len()));
        fronted_grows(second, prefix, fork_with_value(choices, data, value));
        stored::grown_further(nodes, second, all);
    } else if m == own.len() {
        let choices = no_positions().update(key[m].value(), Some(nodes.len()));
        fronted_grows(first, prefix, fork_with_value(choices, path, own_value));
        stored::grown_further(nodes, first, all);
    } else {
        let second = first.push(leaf(path, own_value));
        let choices = no_positions().update(own[m].value(), Some(nodes.len() + 1)).update(
            key[m].value(),
            Some(nodes.len()),
        );
        stored::grown_by_one(first, leaf(path, own_value));
        fronted_grows(second, prefix, fork(choices));
        stored::grown_further(first, second, all);
        stored::grown_further(nodes, first, all);
    }
}

/// An insertion adds to the store and changes nothing in it.
pub proof fn inserted_grows(
    nodes: Seq<NodeView>,
    node: NodeView,
    data: Seq<u8>,
    at: int,
    value: Seq<u8>,
)
    ensures
        stored::grown(nodes, inserted(nodes, node, data, at, value).0),
    decreases node.rank(),
{
    let key = nibble::nibbles(data);
    stored::grown_itself(nodes);
    match node {
        NodeView::Leaf { path, value: own_value, .. } => {
            beside_grows(nodes, path, own_value, data, at, value);
        },
        NodeView::Extension { prefix, child, .. } => {
            parted_grows(nodes, prefix, child, data, at, value);
            if let Some(i) = child {
                if i < nodes.len() && nodes[i as int].rank() < node.rank() {
                    let below = nodes[i as int];
                    let (later, top) = inserted(nodes, below, data, at + prefix.len(), value);
                    inserted_grows(nodes, below, data, at + prefix.len(), value);
                    stored::grown_by_one(later, top);
                    stored::grown_further(nodes, later, later.push(top));
                }
            }
        },
        NodeView::Branch { choices, .. } => {
            if 0 <= at < key.len() {
                stored::grown_by_one(nodes, leaf(data, value));
                if let Some(i) = choices[key[at].value()] {
                    if i < nodes.len() && nodes[i as int].rank() < node.rank() {
                        let below = nodes[i as int];
                        let (later, top) = inserted(nodes, below, data, at + 1, value);
                        inserted_grows(nodes, below, data, at + 1, value);
                        stored::grown_by_one(later, top);
                        stored::grown_further(nodes, later, later.push(top));
                    }
                }
            }
        },
    }
}

/// A removal adds to the store and changes nothing in it.
pub proof fn removed_grows(nodes: Seq<NodeView>, node: NodeView, key: Seq<Nibble>, at: int)
    ensures
        stored::grown(nodes, removed(nodes, node, key, at).0),
    decreases node.rank(),
{
    stored::grown_itself(nodes);
    match node {
        NodeView::Leaf { .. } => {},
        NodeView::Extension { prefix, child, .. } => {
            if let Some(i) = child {
                if i < nodes.len() && nodes[i as int].rank() < node.rank() {
                    let below = nodes[i as int];
                    let (later, left) = removed(nodes, below, key, at + prefix.len());
                    removed_grows(nodes, below, key, at + prefix.len());
                    stored::grown_by_one(later, left->0);
                    stored::grown_further(nodes, later, later.push(left->0));
                }
            }
        },
        NodeView::Branch { choices, .. } => {
            if 0 <= at < key.len() {
                if let Some(i) = choices[key[at].value()] {
                    if i < nodes.len() && nodes[i as int].rank() < node.rank() {
                        let below = nodes[i as int];
                        let (later, left) = removed(nodes, below, key, at + 1);
                        removed_grows(nodes, below, key, at + 1);
                        stored::grown_by_one(later, left->0);
                        stored::grown_further(nodes, later, later.push(left->0));
                    }
                }
            }
        },
    }
}

/// What grows into a store grows into the store with one more node.
pub proof fn grows_on(later: Seq<NodeView>, node: NodeView)
    ensures
        stored::grown(later, later.push(node)),
        forall|nodes: Seq<NodeView>| #[trigger]
            stored::grown(nodes, later) ==> stored::grown(nodes, later.push(node)),
{
    stored::grown_by_one(later, node);
    assert forall|nodes: Seq<NodeView>| #[trigger] stored::grown(nodes, later) implies stored::grown(
        nodes,
        later.push(node),
    ) by {
        stored::grown_further(nodes, later, later.push(node));
    }
}

} // verus!
