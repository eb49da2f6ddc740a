//! Tries as mathematical trees: what they hold, and what insertion, removal and hashing make of
//! them.

use crate::trie::hashing::HashView;
use crate::trie::nibble;
use crate::trie::nibble::Nibble;
use crate::trie::rlp;
use crate::trie::rlp::PathKind;
use vstd::prelude::*;

verus! {

/// A trie with all its nodes in place. A node may hold a note of what stands for it in its
/// parent.
#[allow(inconsistent_fields)]
pub enum Tree {
    /// No node.
    Empty,
    /// One value, with its whole key in bytes.
    Leaf { hash: Option<HashView>, path: Seq<u8>, value: Seq<u8> },
    /// Keys that have `prefix` in common.
    Extension { hash: Option<HashView>, prefix: Seq<Nibble>, child: Box<Tree> },
    /// Keys by their next nibble, and the value of the key that ends here.
    Branch {
        hash: Option<HashView>,
        choices: Seq<Tree>,
        path: Seq<u8>,
        value: Option<Seq<u8>>,
    },
}

/// Whether two keys are the same from position `at` on.
pub open spec fn same_rest(a: Seq<Nibble>, b: Seq<Nibble>, at: int) -> bool {
    &&& 0 <= at <= a.len()
    &&& a.len() == b.len()
    &&& a.skip(at) == b.skip(at)
}

/// What stands in `key` from position `at` on.
pub open spec fn rest(key: Seq<Nibble>, at: int) -> Seq<Nibble> {
    if 0 <= at <= key.len() {
        key.skip(at)
    } else {
        Seq::empty()
    }
}

/// Sixteen choices without a node.
pub open spec fn no_choices() -> Seq<Tree> {
    Seq::new(16, |i: int| Tree::Empty)
}

/// Whether no choice holds a node.
pub open spec fn all_empty(choices: Seq<Tree>) -> bool {
    forall|i: int| 0 <= i < choices.len() ==> choices[i] is Empty
}

/// Whether the choice `i` holds the only node among the choices.
pub open spec fn sole(choices: Seq<Tree>, i: int) -> bool {
    &&& 0 <= i < choices.len()
    &&& choices[i] !is Empty
    &&& forall|j: int| 0 <= j < choices.len() && j != i ==> choices[j] is Empty
}

/// Whether exactly one choice holds a node.
pub open spec fn has_sole(choices: Seq<Tree>) -> bool {
    exists|i: int| sole(choices, i)
}

/// A fresh leaf.
pub open spec fn leaf(path: Seq<u8>, value: Seq<u8>) -> Tree {
    Tree::Leaf { hash: None, path, value }
}

/// A fresh branch without a value of its own.
pub open spec fn fork(choices: Seq<Tree>) -> Tree {
    Tree::Branch { hash: None, choices, path: Seq::empty(), value: None }
}

/// A fresh branch with a value of its own.
pub open spec fn fork_with_value(choices: Seq<Tree>, path: Seq<u8>, value: Seq<u8>) -> Tree {
    Tree::Branch { hash: None, choices, path, value: Some(value) }
}

/// `tree` behind `prefix`: a fresh extension, unless there is nothing to extend by.
pub open spec fn behind(prefix: Seq<Nibble>, tree: Tree) -> Tree {
    if prefix.len() == 0 {
        tree
    } else {
        Tree::Extension { hash: None, prefix, child: Box::new(tree) }
    }
}

/// What takes the place of a branch whose only node is `tree`, at the choice `i`.
pub open spec fn lifted(i: int, tree: Tree) -> Tree {
    match tree {
        Tree::Empty => Tree::Empty,
        Tree::Leaf { path, value, .. } => leaf(path, value),
        Tree::Extension { prefix, child, .. } => Tree::Extension {
            hash: None,
            prefix: seq![Nibble::of(i)] + prefix,
            child,
        },
        Tree::Branch { .. } => Tree::Extension {
            hash: None,
            prefix: seq![Nibble::of(i)],
            child: Box::new(tree),
        },
    }
}

/// The branch with these parts, or what takes its place if it has fewer than two things to tell
/// apart.
pub open spec fn settled(
    hash: Option<HashView>,
    choices: Seq<Tree>,
    path: Seq<u8>,
    value: Option<Seq<u8>>,
) -> Tree {
    if all_empty(choices) {
        match value {
            Some(v) => leaf(path, v),
            None => Tree::Empty,
        }
    } else if value is None && has_sole(choices) {
        let i = choose|i: int| sole(choices, i);
        lifted(i, choices[i])
    } else {
        Tree::Branch { hash, choices, path, value }
    }
}

/// What takes the place of an extension by `prefix` whose child has become `child`.
pub open spec fn extended(hash: Option<HashView>, prefix: Seq<Nibble>, child: Tree) -> Tree {
    match child {
        Tree::Empty => Tree::Empty,
        Tree::Branch { .. } => Tree::Extension { hash, prefix, child: Box::new(child) },
        Tree::Extension { hash: inner_hash, prefix: inner, child: grandchild } => Tree::Extension {
            hash: inner_hash,
            prefix: prefix + inner,
            child: grandchild,
        },
        Tree::Leaf { .. } => child,
    }
}

impl Tree {
    /// The value that the trie holds for `key`, of which the first `at` nibbles led here.
    pub open spec fn get(self, key: Seq<Nibble>, at: int) -> Option<Seq<u8>>
        decreases self,
    {
        match self {
            Tree::Empty => None,
            Tree::Leaf { path, value, .. } => if same_rest(nibble::nibbles(path), key, at) {
                Some(value)
            } else {
                None
            },
            Tree::Extension { prefix, child, .. } => if nibble::stands_at(key, at, prefix) {
                child.get(key, at + prefix.len())
            } else {
                None
            },
            Tree::Branch { choices, value, .. } => if 0 <= at < key.len() {
                let i = key[at].value();
                if i < choices.len() {
                    choices[i].get(key, at + 1)
                } else {
                    None
                }
            } else {
                value
            },
        }
    }

    /// The trie after `value` was put in for the key `data`, of which the first `at` nibbles led
    /// here.
    pub open spec fn insert(self, data: Seq<u8>, at: int, value: Seq<u8>) -> Tree
        decreases self,
    {
        let key = nibble::nibbles(data);
        match self {
            Tree::Empty => leaf(data, value),
            Tree::Leaf { path, value: own_value, .. } => {
                let own = nibble::nibbles(path);
                let m = at + nibble::agreement(key, at, own, at);
                if same_rest(own, key, at) {
                    leaf(path, value)
                } else if m == key.len() {
                    let choices = no_choices().update(own[m].value(), leaf(path, own_value));
                    behind(key.subrange(at, m), fork_with_value(choices, data, value))
                } else if m == own.len() {
                    let choices = no_choices().update(key[m].value(), leaf(data, value));
                    behind(key.subrange(at, m), fork_with_value(choices, path, own_value))
                } else {
                    let choices = no_choices().update(
                        own[m].value(),
                        leaf(path, own_value),
                    ).update(key[m].value(), leaf(data, value));
                    behind(key.subrange(at, m), fork(choices))
                }
            },
            Tree::Extension { prefix, child, .. } => if nibble::stands_at(key, at, prefix) {
                Tree::Extension {
                    hash: None,
                    prefix,
                    child: Box::new(child.insert(data, at + prefix.len(), value)),
                }
            } else {
                let n = nibble::agreement(key, at, prefix, 0) as int;
                let choices = no_choices().update(
                    prefix[n].value(),
                    behind(prefix.skip(n + 1), *child),
                );
                behind(
                    prefix.take(n),
                    if at + n < key.len() {
                        fork(choices.update(key[at + n].value(), leaf(data, value)))
                    } else {
                        fork_with_value(choices, data, value)
                    },
                )
            },
            Tree::Branch { choices, path, value: own_value, .. } => if 0 <= at < key.len() {
                let i = key[at].value();
                Tree::Branch {
                    hash: None,
                    choices: if i < choices.len() {
                        choices.update(i, choices[i].insert(data, at + 1, value))
                    } else {
                        choices
                    },
                    path,
                    value: own_value,
                }
            } else {
                fork_with_value(choices, data, value)
            },
        }
    }

    /// How many nodes an insertion puts into the store, the new top node not among them.
    pub open spec fn insert_cost(self, data: Seq<u8>, at: int) -> nat
        decreases self,
    {
        let key = nibble::nibbles(data);
        match self {
            Tree::Empty => 0,
            Tree::Leaf { path, .. } => {
                let own = nibble::nibbles(path);
                let m = at + nibble::agreement(key, at, own, at);
                if same_rest(own, key, at) {
                    0
                } else {
                    (if m == key.len() || m == own.len() {
                        1nat
                    } else {
                        2nat
                    }) + (if m > at {
                        1nat
                    } else {
                        0nat
                    })
                }
            },
            Tree::Extension { prefix, child, .. } => if nibble::stands_at(key, at, prefix) {
                child.insert_cost(data, at + prefix.len()) + 1
            } else {
                let n = nibble::agreement(key, at, prefix, 0) as int;
                (if n + 1 < prefix.len() {
                    1nat
                } else {
                    0nat
                }) + (if at + n < key.len() {
                    1nat
                } else {
                    0nat
                }) + (if n > 0 {
                    1nat
                } else {
                    0nat
                })
            },
            Tree::Branch { choices, .. } => if 0 <= at < key.len() && key[at].value()
                < choices.len() {
                choices[key[at].value()].insert_cost(data, at + 1) + 1
            } else {
                0
            },
        }
    }

    /// The trie after `key` was taken out, and the value that it held for it.
    pub open spec fn remove(self, key: Seq<Nibble>, at: int) -> (Tree, Option<Seq<u8>>)
        decreases self,
    {
        match self {
            Tree::Empty => (self, None),
            Tree::Leaf { path, value, .. } => if same_rest(nibble::nibbles(path), key, at) {
                (Tree::Empty, Some(value))
            } else {
                (self, None)
            },
            Tree::Extension { hash, prefix, child } => if nibble::stands_at(key, at, prefix) {
                let (new_child, old_value) = child.remove(key, at + prefix.len());
                let new_hash = if old_value is Some {
                    None
                } else {
                    hash
                };
                (extended(new_hash, prefix, new_child), old_value)
            } else {
                (self, None)
            },
            Tree::Branch { hash, choices, path, value } => if 0 <= at < key.len() {
                let i = key[at].value();
                if i < choices.len() {
                    let (new_child, old_value) = choices[i].remove(key, at + 1);
                    let new_hash = if old_value is Some {
                        None
                    } else {
                        hash
                    };
                    (settled(new_hash, choices.update(i, new_child), path, value), old_value)
                } else {
                    (self, None)
                }
            } else if value is Some {
                (settled(None, choices, Seq::empty(), None), value)
            } else {
                (settled(hash, choices, path, value), None)
            },
        }
    }

    /// How many nodes a removal puts into the store, the new top node not among them.
    pub open spec fn remove_cost(self, key: Seq<Nibble>, at: int) -> nat
        decreases self,
    {
        match self {
            Tree::Empty => 0,
            Tree::Leaf { .. } => 0,
            Tree::Extension { prefix, child, .. } => if nibble::stands_at(key, at, prefix) {
                child.remove_cost(key, at + prefix.len()) + (if child.remove(
                    key,
                    at + prefix.len(),
                ).0 is Branch {
                    1nat
                } else {
                    0nat
                })
            } else {
                0
            },
            Tree::Branch { choices, .. } => if 0 <= at < key.len() && key[at].value()
                < choices.len() {
                let child = choices[key[at].value()];
                child.remove_cost(key, at + 1) + (if child.remove(key, at + 1).0 is Empty {
                    0nat
                } else {
                    1nat
                })
            } else {
                0
            },
        }
    }

    /// Whether a look-up has to read a stored node.
    pub open spec fn get_reads(self, key: Seq<Nibble>, at: int) -> bool {
        match self {
            Tree::Extension { prefix, .. } => nibble::stands_at(key, at, prefix),
            Tree::Branch { choices, .. } => 0 <= at < key.len() && choices[key[at].value()]
                !is Empty,
            _ => false,
        }
    }

    /// Whether a removal has to read a stored node: the way leads on, or a branch gives its place
    /// to the only node below it.
    pub open spec fn remove_reads(self, key: Seq<Nibble>, at: int) -> bool {
        ||| self.get_reads(key, at)
        ||| self matches Tree::Branch { choices, value, .. } && has_sole(choices) && (value is None
            || at >= key.len())
    }

    /// Whether hashing has to read a stored node.
    pub open spec fn hash_reads(self) -> bool {
        match self {
            Tree::Extension { hash, .. } => hash is None,
            Tree::Branch { hash, choices, .. } => hash is None && !all_empty(choices),
            _ => false,
        }
    }

    /// Every branch has sixteen choices, and every leaf's key is at least as long as the way to
    /// it.
    pub open spec fn fits(self, at: int) -> bool
        decreases self,
    {
        match self {
            Tree::Empty => true,
            Tree::Leaf { path, .. } => at <= nibble::nibbles(path).len(),
            Tree::Extension { prefix, child, .. } => child.fits(at + prefix.len()),
            Tree::Branch { choices, .. } => {
                &&& choices.len() == 16
                &&& forall|i: int|
                    0 <= i < choices.len() ==> (#[trigger] choices[i]).fits(at + 1)
            },
        }
    }

    /// Every value stands where its key leads, if the nibbles `way` led here.
    pub open spec fn placed(self, way: Seq<Nibble>) -> bool
        decreases self,
    {
        match self {
            Tree::Empty => true,
            Tree::Leaf { path, .. } => nibble::stands_at(nibble::nibbles(path), 0, way),
            Tree::Extension { prefix, child, .. } => child.placed(way + prefix),
            Tree::Branch { choices, path, value, .. } => {
                &&& choices.len() == 16
                &&& value is Some ==> nibble::nibbles(path) == way
                &&& forall|i: int|
                    0 <= i < choices.len() ==> (#[trigger] choices[i]).placed(
                        way.push(Nibble::of(i)),
                    )
            },
        }
    }

    /// The nibbles of every key in the trie can be counted.
    pub open spec fn countable(self) -> bool
        decreases self,
    {
        match self {
            Tree::Empty => true,
            Tree::Leaf { path, .. } => nibble::nibbles(path).len() <= usize::MAX,
            Tree::Extension { child, .. } => child.countable(),
            Tree::Branch { choices, path, .. } => {
                &&& nibble::nibbles(path).len() <= usize::MAX
                &&& forall|i: int| 0 <= i < choices.len() ==> (#[trigger] choices[i]).countable()
            },
        }
    }

    /// No node can be spared: an extension has a prefix and leads to a branch, and a branch tells
    /// at least two things apart.
    pub open spec fn canonical(self) -> bool
        decreases self,
    {
        match self {
            Tree::Empty => true,
            Tree::Leaf { .. } => true,
            Tree::Extension { prefix, child, .. } => {
                &&& prefix.len() > 0
                &&& *child is Branch
                &&& child.canonical()
            },
            Tree::Branch { choices, value, .. } => {
                &&& choices.len() == 16
                &&& !all_empty(choices)
                &&& value is None ==> !has_sole(choices)
                &&& forall|i: int|
                    0 <= i < choices.len() ==> (#[trigger] choices[i]).canonical()
            },
        }
    }

    /// The trie without the notes of what was computed.
    pub open spec fn bare(self) -> Tree
        decreases self,
    {
        match self {
            Tree::Empty => Tree::Empty,
            Tree::Leaf { path, value, .. } => Tree::Leaf { hash: None, path, value },
            Tree::Extension { prefix, child, .. } => Tree::Extension {
                hash: None,
                prefix,
                child: Box::new(child.bare()),
            },
            Tree::Branch { choices, path, value, .. } => Tree::Branch {
                hash: None,
                choices: Seq::new(
                    choices.len(),
                    |i: int|
                        if 0 <= i < choices.len() {
                            choices[i].bare()
                        } else {
                            Tree::Empty
                        },
                ),
                path: if value is Some {
                    path
                } else {
                    Seq::empty()
                },
                value,
            },
        }
    }

    /// What stands for the trie in its parent, if `at` nibbles led here. Where a node holds a note
    /// of it, the note is what counts; no node is the empty string.
    pub open spec fn hashed(self, at: int) -> HashView
        decreases self, 0nat,
    {
        match self {
            Tree::Empty => HashView::Inline(rlp::rlp_string(Seq::empty())),
            Tree::Leaf { hash, path, value } => match hash {
                Some(known) => known,
                None => HashView::of(
                    rlp::rlp_list(
                        rlp::rlp_string(
                            rlp::hex_prefix(rest(nibble::nibbles(path), at), PathKind::Leaf),
                        ) + rlp::rlp_string(value),
                    ),
                ),
            },
            Tree::Extension { hash, prefix, child } => match hash {
                Some(known) => known,
                None => extension_hash(prefix, child.hashed(at + prefix.len())),
            },
            Tree::Branch { hash, choices, value, .. } => match hash {
                Some(known) => known,
                None => HashView::of(
                    rlp::rlp_list(
                        choices_payload(choices, at + 1, choices.len()) + rlp::rlp_string(
                            match value {
                                Some(v) => v,
                                None => Seq::empty(),
                            },
                        ),
                    ),
                ),
            },
        }
    }

    /// Every note of what was computed is what would be computed now, if `at` nibbles led here.
    pub open spec fn coherent(self, at: int) -> bool
        decreases self,
    {
        match self {
            Tree::Empty => true,
            Tree::Leaf { hash, .. } => hash is Some ==> hash == Some(self.bare().hashed(at)),
            Tree::Extension { hash, prefix, child } => {
                &&& hash is Some ==> hash == Some(self.bare().hashed(at))
                &&& child.coherent(at + prefix.len())
            },
            Tree::Branch { hash, choices, .. } => {
                &&& hash is Some ==> hash == Some(self.bare().hashed(at))
                &&& forall|i: int|
                    0 <= i < choices.len() ==> (#[trigger] choices[i]).coherent(at + 1)
            },
        }
    }

    /// How many nibbles lie between here and the deepest node that hashing comes to.
    pub open spec fn span(self) -> nat
        decreases self, 0nat,
    {
        match self {
            Tree::Empty => 0,
            Tree::Leaf { .. } => 0,
            Tree::Extension { hash, prefix, child } => if hash is Some {
                0
            } else {
                prefix.len() + child.span()
            },
            Tree::Branch { hash, choices, .. } => if hash is Some {
                0
            } else {
                choices_span(choices, choices.len())
            },
        }
    }

    /// The trie with `hash` as its top node's note of what stands for it.
    pub open spec fn noted(self, hash: HashView) -> Tree {
        match self {
            Tree::Empty => Tree::Empty,
            Tree::Leaf { path, value, .. } => Tree::Leaf { hash: Some(hash), path, value },
            Tree::Extension { prefix, child, .. } => Tree::Extension {
                hash: Some(hash),
                prefix,
                child,
            },
            Tree::Branch { choices, path, value, .. } => Tree::Branch {
                hash: Some(hash),
                choices,
                path,
                value,
            },
        }
    }
}

/// What stands for an extension by `prefix`, where `child` stands for its child.
pub open spec fn extension_hash(prefix: Seq<Nibble>, child: HashView) -> HashView {
    HashView::of(
        rlp::rlp_list(
            rlp::rlp_string(rlp::hex_prefix(prefix, PathKind::Extension)) + child.item(),
        ),
    )
}

/// The items that stand for the first `count` choices, one after the other.
pub open spec fn choices_payload(choices: Seq<Tree>, at: int, count: nat) -> Seq<u8>
    decreases choices, count,
{
    if count == 0 || count > choices.len() {
        Seq::empty()
    } else {
        choices_payload(choices, at, (count - 1) as nat) + choices[count - 1].hashed(at).item()
    }
}

/// How many nibbles lie at most between a branch and what hashing comes to by way of its first
/// `count` choices.
pub open spec fn choices_span(choices: Seq<Tree>, count: nat) -> nat
    decreases choices, count,
{
    if count == 0 || count > choices.len() {
        0
    } else {
        let before = choices_span(choices, (count - 1) as nat);
        let last = if choices[count - 1] is Empty {
            0
        } else {
            1 + choices[count - 1].span()
        };
        if before > last {
            before
        } else {
            last
        }
    }
}

} // verus!
