//! Nodes that refer to others in the store, and the tries that they make.

use crate::trie::hashing::HashView;
use crate::trie::nibble::Nibble;
use crate::trie::tree::Tree;
use vstd::prelude::*;

verus! {

/// One node; the nodes below it are told by their positions in the store.
#[allow(inconsistent_fields)]
pub enum NodeView {
    /// Keys by their next nibble, and the value of the key that ends here.
    Branch {
        hash: Option<HashView>,
        choices: Seq<Option<nat>>,
        path: Seq<u8>,
        value: Option<Seq<u8>>,
    },
    /// Keys that have `prefix` in common.
    Extension { hash: Option<HashView>, prefix: Seq<Nibble>, child: Option<nat> },
    /// One value, with its whole key in bytes.
    Leaf { hash: Option<HashView>, path: Seq<u8>, value: Seq<u8> },
}

/// One more than the greatest position among `choices`, or zero.
pub open spec fn choices_rank(choices: Seq<Option<nat>>) -> nat
    decreases choices.len(),
{
    if choices.len() == 0 {
        0
    } else {
        let before = choices_rank(choices.drop_last());
        match choices.last() {
            Some(i) if i + 1 > before => i + 1,
            _ => before,
        }
    }
}

/// Whether a key of these bytes can have its nibbles counted.
pub open spec fn countable(path: Seq<u8>) -> bool {
    2 * path.len() <= usize::MAX
}

impl NodeView {
    /// One more than the greatest position that the node refers to, or zero.
    pub open spec fn rank(self) -> nat {
        match self {
            NodeView::Branch { choices, .. } => choices_rank(choices),
            NodeView::Extension { child, .. } => match child {
                Some(i) => i + 1,
                None => 0,
            },
            NodeView::Leaf { .. } => 0,
        }
    }

    /// The node with `hash` as its note of what stands for it.
    pub open spec fn noted(self, hash: HashView) -> NodeView {
        match self {
            NodeView::Branch { choices, path, value, .. } => NodeView::Branch {
                hash: Some(hash),
                choices,
                path,
                value,
            },
            NodeView::Extension { prefix, child, .. } => NodeView::Extension {
                hash: Some(hash),
                prefix,
                child,
            },
            NodeView::Leaf { path, value, .. } => NodeView::Leaf { hash: Some(hash), path, value },
        }
    }

    /// The node has its parts, and refers only to positions below `bound`.
    pub open spec fn sound(self, bound: nat) -> bool {
        &&& self.rank() <= bound
        &&& match self {
            NodeView::Branch { choices, path, .. } => choices.len() == 16 && countable(path),
            NodeView::Extension { child, .. } => child is Some,
            NodeView::Leaf { path, .. } => countable(path),
        }
    }
}

/// Every stored node refers only to nodes that were stored before it.
pub open spec fn sound_store(nodes: Seq<NodeView>) -> bool {
    forall|i: int| 0 <= i < nodes.len() ==> (#[trigger] nodes[i]).sound(i as nat)
}

/// The trie that starts at `node`.
pub open spec fn tree_of(nodes: Seq<NodeView>, node: NodeView) -> Tree
    decreases node.rank(),
{
    match node {
        NodeView::Leaf { hash, path, value } => Tree::Leaf { hash, path, value },
        NodeView::Extension { hash, prefix, child } => Tree::Extension {
            hash,
            prefix,
            child: Box::new(
                match child {
                    Some(i) if i < nodes.len() && nodes[i as int].rank() < node.rank() => tree_of(
                        nodes,
                        nodes[i as int],
                    ),
                    _ => Tree::Empty,
                },
            ),
        },
        NodeView::Branch { hash, choices, path, value } => Tree::Branch {
            hash,
            choices: Seq::new(
                choices.len(),
                |c: int|
                    match choices[c] {
                        Some(i) if i < nodes.len() && nodes[i as int].rank() < node.rank() =>
                            tree_of(nodes, nodes[i as int]),
                        _ => Tree::Empty,
                    },
            ),
            path,
            value,
        },
    }
}

/// The trie at a position of the store.
pub open spec fn tree_at(nodes: Seq<NodeView>, position: Option<nat>) -> Tree {
    match position {
        Some(i) => tree_of(nodes, nodes[i as int]),
        None => Tree::Empty,
    }
}

/// Whether `later` holds all nodes of `earlier`, in their places.
pub open spec fn grown(earlier: Seq<NodeView>, later: Seq<NodeView>) -> bool {
    &&& earlier.len() <= later.len()
    &&& later.take(earlier.len() as int) == earlier
}

/// Each choice lies below the rank.
pub proof fn choice_below_rank(choices: Seq<Option<nat>>, c: int)
    requires
        0 <= c < choices.len(),
    ensures
        choices[c] matches Some(i) ==> i < choices_rank(choices),
    decreases choices.len(),
{
    if c < choices.len() - 1 {
        choice_below_rank(choices.drop_last(), c);
        assert(choices.drop_last()[c] == choices[c]);
    }
}

/// If each choice lies below a bound, so does the rank.
pub proof fn rank_within(choices: Seq<Option<nat>>, bound: nat)
    requires
        forall|c: int| 0 <= c < choices.len() ==> (#[trigger] choices[c] matches Some(i) ==> i
            < bound),
    ensures
        choices_rank(choices) <= bound,
    decreases choices.len(),
{
    if choices.len() > 0 {
        assert forall|c: int| 0 <= c < choices.drop_last().len() implies (
        #[trigger] choices.drop_last()[c] matches Some(i) ==> i < bound) by {
            assert(choices.drop_last()[c] == choices[c]);
        }
        rank_within(choices.drop_last(), bound);
        assert(choices.last() == choices[choices.len() - 1]);
    }
}

/// A stored node is sound for the whole store.
pub proof fn stored_sound(nodes: Seq<NodeView>, position: nat)
    requires
        sound_store(nodes),
        position < nodes.len(),
    ensures
        nodes[position as int].sound(nodes.len()),
{
    assert(nodes[position as int].sound(position));
}

/// A node that may stand at the end of the store may stand later.
pub proof fn sound_later(node: NodeView, bound: nat, later: nat)
    requires
        node.sound(bound),
        bound <= later,
    ensures
        node.sound(later),
{
}

/// The parts of a sound node are the tries at the positions that it refers to.
pub proof fn tree_parts(nodes: Seq<NodeView>, node: NodeView)
    requires
        sound_store(nodes),
        node.sound(nodes.len()),
    ensures
        match node {
            NodeView::Leaf { hash, path, value } => tree_of(nodes, node) == (
            Tree::Leaf { hash, path, value }),
            NodeView::Extension { hash, prefix, child } => {
                &&& child matches Some(i) && i < nodes.len() && nodes[i as int].rank() < node.rank()
                &&& tree_of(nodes, node) == (Tree::Extension {
                    hash,
                    prefix,
                    child: Box::new(tree_at(nodes, child)),
                })
            },
            NodeView::Branch { hash, choices, path, value } => {
                &&& forall|c: int|
                    0 <= c < 16 ==> (#[trigger] choices[c] matches Some(i) ==> i < nodes.len()
                        && nodes[i as int].rank() < node.rank())
                &&& tree_of(nodes, node) == (Tree::Branch {
                    hash,
                    choices: Seq::new(16, |c: int| tree_at(nodes, choices[c])),
                    path,
                    value,
                })
            },
        },
{
    match node {
        NodeView::Leaf { .. } => {},
        NodeView::Extension { child, .. } => {
            if let Some(i) = child {
                assert(nodes[i as int].sound(i));
            }
        },
        NodeView::Branch { hash, choices, path, value } => {
            assert forall|c: int| 0 <= c < 16 implies (#[trigger] choices[c] matches Some(i) ==> i
                < nodes.len() && nodes[i as int].rank() < node.rank()) by {
                choice_below_rank(choices, c);
                if let Some(i) = choices[c] {
                    assert(nodes[i as int].sound(i));
                }
            }
            if let Tree::Branch { choices: trees, .. } = tree_of(nodes, node) {
                assert(trees =~= Seq::new(16, |c: int| tree_at(nodes, choices[c])));
            }
        },
    }
}

/// What is stored later changes no trie.
pub proof fn tree_stays(earlier: Seq<NodeView>, later: Seq<NodeView>, node: NodeView)
    requires
        sound_store(earlier),
        sound_store(later),
        grown(earlier, later),
        node.sound(earlier.len()),
    ensures
        tree_of(earlier, node) == tree_of(later, node),
    decreases node.rank(),
{
    tree_parts(earlier, node);
    sound_later(node, earlier.len(), later.len());
    tree_parts(later, node);
    match node {
        NodeView::Leaf { .. } => {},
        NodeView::Extension { child, .. } => {
            if let Some(i) = child {
                assert(later[i as int] == later.take(earlier.len() as int)[i as int]);
                assert(earlier[i as int].sound(i));
                sound_later(earlier[i as int], i, earlier.len());
                tree_stays(earlier, later, earlier[i as int]);
            }
        },
        NodeView::Branch { choices, .. } => {
            let a = Seq::new(16, |c: int| tree_at(earlier, choices[c]));
            let b = Seq::new(16, |c: int| tree_at(later, choices[c]));
            assert forall|c: int| 0 <= c < 16 implies a[c] == b[c] by {
                if let Some(i) = choices[c] {
                    assert(later[i as int] == later.take(earlier.len() as int)[i as int]);
                    assert(earlier[i as int].sound(i));
                    sound_later(earlier[i as int], i, earlier.len());
                    tree_stays(earlier, later, earlier[i as int]);
                }
            }
            assert(a =~= b);
        },
    }
}

/// What is stored later changes no trie in the store.
pub proof fn tree_at_stays(
    earlier: Seq<NodeView>,
    later: Seq<NodeView>,
    position: Option<nat>,
)
    requires
        sound_store(earlier),
        sound_store(later),
        grown(earlier, later),
        position matches Some(i) ==> i < earlier.len(),
    ensures
        tree_at(earlier, position) == tree_at(later, position),
{
    if let Some(i) = position {
        assert(later[i as int] == later.take(earlier.len() as int)[i as int]);
        stored_sound(earlier, i);
        tree_stays(earlier, later, earlier[i as int]);
    }
}

/// What was stored last is the trie that it was before.
pub proof fn tree_at_end(nodes: Seq<NodeView>, node: NodeView)
    requires
        sound_store(nodes),
        node.sound(nodes.len()),
    ensures
        sound_store(nodes.push(node)),
        grown(nodes, nodes.push(node)),
        tree_at(nodes.push(node), Some(nodes.len())) == tree_of(nodes, node),
{
    let later = nodes.push(node);
    assert(later.take(nodes.len() as int) =~= nodes);
    assert forall|i: int| 0 <= i < later.len() implies (#[trigger] later[i]).sound(i as nat) by {
        if i < nodes.len() {
            assert(nodes[i].sound(i as nat));
        }
    }
    tree_stays(nodes, later, node);
}

/// The keys of a trie in a sound store can be counted.
pub proof fn tree_countable(nodes: Seq<NodeView>, node: NodeView)
    requires
        sound_store(nodes),
        node.sound(nodes.len()),
    ensures
        tree_of(nodes, node).countable(),
    decreases node.rank(),
{
    tree_parts(nodes, node);
    match node {
        NodeView::Leaf { .. } => {},
        NodeView::Extension { child, .. } => {
            if let Some(i) = child {
                stored_sound(nodes, i);
                tree_countable(nodes, nodes[i as int]);
            }
        },
        NodeView::Branch { choices, .. } => {
            let trees = Seq::new(16, |c: int| tree_at(nodes, choices[c]));
            assert forall|c: int| 0 <= c < 16 implies (#[trigger] trees[c]).countable() by {
                if let Some(i) = choices[c] {
                    stored_sound(nodes, i);
                    tree_countable(nodes, nodes[i as int]);
                }
            }
        },
    }
}

/// A trie that starts at a node is not empty.
pub proof fn tree_not_empty(nodes: Seq<NodeView>, node: NodeView)
    ensures
        tree_of(nodes, node) !is Empty,
{
}

/// A store without growth is grown.
pub proof fn grown_itself(nodes: Seq<NodeView>)
    ensures
        grown(nodes, nodes),
{
    assert(nodes.take(nodes.len() as int) =~= nodes);
}

/// A store with one more node is grown.
pub proof fn grown_by_one(nodes: Seq<NodeView>, node: NodeView)
    ensures
        grown(nodes, nodes.push(node)),
{
    assert(nodes.push(node).take(nodes.len() as int) =~= nodes);
}

/// Growth upon growth is growth.
pub proof fn grown_further(a: Seq<NodeView>, b: Seq<NodeView>, c: Seq<NodeView>)
    requires
        grown(a, b),
        grown(b, c),
    ensures
        grown(a, c),
{
    assert forall|i: int| 0 <= i < a.len() implies c.take(a.len() as int)[i] == a[i] by {
        assert(b.take(a.len() as int)[i] == b[i]);
        assert(c.take(b.len() as int)[i] == c[i]);
    }
    assert(c.take(a.len() as int) =~= a);
}

} // verus!
