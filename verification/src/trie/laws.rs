//! What holds of tries whatever is put into them and taken out of them.

use crate::trie::facts;
use crate::trie::nibble;
use crate::trie::nibble::Nibble;
use crate::trie::tree;
use crate::trie::tree::Tree;
use vstd::prelude::*;

verus! {

/// What a leaf holds after an insertion beside it.
proof fn leaf_insert_then_get(
    t: Tree,
    data: Seq<u8>,
    at: int,
    value: Seq<u8>,
    key: Seq<Nibble>,
)
    requires
        t is Leaf,
        t.fits(at),
        0 <= at <= nibble::nibbles(data).len(),
        at <= key.len(),
    ensures
        t.insert(data, at, value).get(key, at) == (if tree::same_rest(
            nibble::nibbles(data),
            key,
            at,
        ) {
            Some(value)
        } else {
            t.get(key, at)
        }),
{
    reveal_with_fuel(Tree::get, 2);
    let new = nibble::nibbles(data);
    if let Tree::Leaf { path, value: own_value, .. } = t {
        let own = nibble::nibbles(path);
        let m = at + nibble::agreement(new, at, own, at);
        nibble::agreement_is_longest(new, at, own, at);
        facts::same_rest_pointwise(own, new, at);
        facts::same_rest_pointwise(new, own, at);
        if tree::same_rest(own, new, at) {
            facts::same_rest_pointwise(own, key, at);
            facts::same_rest_pointwise(new, key, at);
        } else {
            assert forall|i: int| at <= i < m implies new[i] == own[i] by {
                assert(new[at + (i - at)] == own[at + (i - at)]);
            }
            let run = new.subrange(at, m);
            assert(run =~= own.subrange(at, m));
            facts::same_rest_split(new, key, at, m);
            facts::same_rest_split(own, key, at, m);
            let (old_leaf, new_leaf) = (tree::leaf(path, own_value), tree::leaf(data, value));
            let branch = if m == new.len() {
                tree::fork_with_value(
                    tree::no_choices().update(own[m].value(), old_leaf),
                    data,
                    value,
                )
            } else if m == own.len() {
                tree::fork_with_value(
                    tree::no_choices().update(new[m].value(), new_leaf),
                    path,
                    own_value,
                )
            } else {
                tree::fork(
                    tree::no_choices().update(own[m].value(), old_leaf).update(
                        new[m].value(),
                        new_leaf,
                    ),
                )
            };
            assert(t.insert(data, at, value) == tree::behind(run, branch));
            facts::behind_get(run, branch, key, at);
            if m < new.len() {
                facts::same_rest_step(new, key, m);
                facts::value_range(new[m]);
            }
            if m < own.len() {
                facts::same_rest_step(own, key, m);
                facts::value_range(own[m]);
            }
            if m < key.len() {
                facts::value_range(key[m]);
                if m < new.len() && key[m].value() == new[m].value() {
                    facts::value_injective(key[m], new[m]);
                }
                if m < own.len() && key[m].value() == own[m].value() {
                    facts::value_injective(key[m], own[m]);
                }
                if m < own.len() && m < new.len() && new[m].value() == own[m].value() {
                    facts::value_injective(own[m], new[m]);
                }
            }
            if m <= new.len() {
                facts::same_rest_pointwise(new, key, m);
            }
            if m <= own.len() {
                facts::same_rest_pointwise(own, key, m);
            }
        }
    }
}

/// What an extension holds after an insertion that parts its prefix.
pub proof fn parted_insert_then_get(
    t: Tree,
    data: Seq<u8>,
    at: int,
    value: Seq<u8>,
    key: Seq<Nibble>,
)
    requires
        t matches Tree::Extension { prefix, .. } && !nibble::stands_at(
            nibble::nibbles(data),
            at,
            prefix,
        ),
        0 <= at <= nibble::nibbles(data).len(),
        at <= key.len(),
    ensures
        t.insert(data, at, value).get(key, at) == (if tree::same_rest(
            nibble::nibbles(data),
            key,
            at,
        ) {
            Some(value)
        } else {
            t.get(key, at)
        }),
{
    reveal_with_fuel(Tree::get, 2);
    let new = nibble::nibbles(data);
    if let Tree::Extension { prefix, child, .. } = t {
        let n = nibble::agreement(new, at, prefix, 0) as int;
        let m = at + n;
        facts::parting(new, at, prefix);
        let run = prefix.take(n);
        facts::same_rest_split(new, key, at, m);
        facts::stands_at_split(key, at, prefix, n);
        let old_part = tree::behind(prefix.skip(n + 1), *child);
        let choices = tree::no_choices().update(prefix[n].value(), old_part);
        let branch = if m < new.len() {
            tree::fork(choices.update(new[m].value(), tree::leaf(data, value)))
        } else {
            tree::fork_with_value(choices, data, value)
        };
        assert(t.insert(data, at, value) == tree::behind(run, branch));
        facts::behind_get(run, branch, key, at);
        facts::value_range(prefix[n]);
        if m < new.len() {
            facts::same_rest_step(new, key, m);
            facts::value_range(new[m]);
            if prefix[n].value() == new[m].value() {
                facts::value_injective(prefix[n], new[m]);
            }
        }
        if m < key.len() {
            facts::value_range(key[m]);
            if m < new.len() && key[m].value() == new[m].value() {
                facts::value_injective(key[m], new[m]);
            }
            if key[m].value() == prefix[n].value() {
                facts::value_injective(key[m], prefix[n]);
            }
            facts::behind_get(prefix.skip(n + 1), *child, key, m + 1);
        }
        if m == key.len() {
            facts::same_rest_pointwise(new, key, m);
        }
    }
}

/// After a value was put in, the trie holds it for its key, and for every other key what it held
/// before.
pub proof fn insert_then_get(
    t: Tree,
    data: Seq<u8>,
    at: int,
    value: Seq<u8>,
    key: Seq<Nibble>,
)
    requires
        t.fits(at),
        0 <= at <= nibble::nibbles(data).len(),
        at <= key.len(),
    ensures
        t.insert(data, at, value).get(key, at) == (if tree::same_rest(
            nibble::nibbles(data),
            key,
            at,
        ) {
            Some(value)
        } else {
            t.get(key, at)
        }),
    decreases t,
{
    let new = nibble::nibbles(data);
    match t {
        Tree::Empty => {},
        Tree::Leaf { .. } => {
            leaf_insert_then_get(t, data, at, value, key);
        },
        Tree::Extension { prefix, child, .. } => {
            if nibble::stands_at(new, at, prefix) {
                assert(prefix =~= new.subrange(at, at + prefix.len()));
                facts::same_rest_split(new, key, at, at + prefix.len());
                if nibble::stands_at(key, at, prefix) {
                    insert_then_get(*child, data, at + prefix.len(), value, key);
                }
            } else {
                parted_insert_then_get(t, data, at, value, key);
            }
        },
        Tree::Branch { choices, .. } => {
            if at < new.len() {
                facts::same_rest_step(new, key, at);
                facts::value_range(new[at]);
                if at < key.len() {
                    facts::value_range(key[at]);
                    if key[at].value() == new[at].value() {
                        facts::value_injective(key[at], new[at]);
                        assert(choices[key[at].value()].fits(at + 1));
                        insert_then_get(choices[key[at].value()], data, at + 1, value, key);
                    }
                }
            } else {
                facts::same_rest_pointwise(new, key, at);
                if at < key.len() {
                    facts::value_range(key[at]);
                }
            }
        },
    }
}

/// Where every value stands where its key leads, no leaf's key is shorter than the way to it.
pub proof fn placed_fits(t: Tree, way: Seq<Nibble>)
    requires
        t.placed(way),
    ensures
        t.fits(way.len() as int),
    decreases t,
{
    match t {
        Tree::Extension { prefix, child, .. } => {
            placed_fits(*child, way + prefix);
        },
        Tree::Branch { choices, .. } => {
            assert forall|i: int| 0 <= i < choices.len() implies (#[trigger] choices[i]).fits(
                (way.len() + 1) as int,
            ) by {
                placed_fits(choices[i], way.push(Nibble::of(i)));
            }
        },
        _ => {},
    }
}

/// An insertion makes no leaf's key shorter than the way to it.
pub proof fn insert_fits(t: Tree, data: Seq<u8>, at: int, value: Seq<u8>)
    requires
        t.fits(at),
        0 <= at <= nibble::nibbles(data).len(),
    ensures
        t.insert(data, at, value).fits(at),
    decreases t,
{
    let new = nibble::nibbles(data);
    match t {
        Tree::Empty => {},
        Tree::Leaf { path, value: own_value, .. } => {
            reveal_with_fuel(Tree::fits, 3);
            let own = nibble::nibbles(path);
            nibble::agreement_is_longest(new, at, own, at);
            facts::same_rest_pointwise(own, new, at);
            let m = at + nibble::agreement(new, at, own, at);
            assert forall|i: int| at <= i < m implies new[i] == own[i] by {
                assert(new[at + (i - at)] == own[at + (i - at)]);
            }
            if m < own.len() {
                facts::value_range(own[m]);
            }
            if m < new.len() {
                facts::value_range(new[m]);
            }
        },
        Tree::Extension { prefix, child, .. } => {
            if nibble::stands_at(new, at, prefix) {
                insert_fits(*child, data, at + prefix.len(), value);
            } else {
                facts::parting(new, at, prefix);
                let n = nibble::agreement(new, at, prefix, 0) as int;
                let m = at + n;
                let right = prefix.skip(n + 1);
                facts::value_range(prefix[n]);
                facts::behind_fits(right, *child, m + 1);
                let choices = tree::no_choices().update(
                    prefix[n].value(),
                    tree::behind(right, *child),
                );
                let branch = if m < new.len() {
                    facts::value_range(new[m]);
                    tree::fork(choices.update(new[m].value(), tree::leaf(data, value)))
                } else {
                    tree::fork_with_value(choices, data, value)
                };
                reveal_with_fuel(Tree::fits, 2);
                assert(branch.fits(m));
                facts::behind_fits(prefix.take(n), branch, at);
            }
        },
        Tree::Branch { choices, .. } => {
            if at < new.len() {
                facts::value_range(new[at]);
                let i = new[at].value();
                assert(choices[i].fits(at + 1));
                insert_fits(choices[i], data, at + 1, value);
            }
        },
    }
}

/// After an insertion every value still stands where its key leads.
pub proof fn insert_placed(t: Tree, data: Seq<u8>, value: Seq<u8>, way: Seq<Nibble>)
    requires
        t.placed(way),
        nibble::stands_at(nibble::nibbles(data), 0, way),
    ensures
        t.insert(data, way.len() as int, value).placed(way),
    decreases t,
{
    let new = nibble::nibbles(data);
    let at = way.len() as int;
    match t {
        Tree::Empty => {},
        Tree::Leaf { path, value: own_value, .. } => {
            leaf_insert_placed(t, data, value, way);
        },
        Tree::Extension { prefix, child, .. } => {
            if nibble::stands_at(new, at, prefix) {
                facts::way_run(new, way, prefix);
                insert_placed(*child, data, value, way + prefix);
            } else {
                facts::parting(new, at, prefix);
                let n = nibble::agreement(new, at, prefix, 0) as int;
                let m = at + n;
                let (left, right) = (prefix.take(n), prefix.skip(n + 1));
                let fork_way = way + left;
                facts::way_run(new, way, left);
                facts::value_range(prefix[n]);
                let i = prefix[n].value();
                assert(fork_way.push(prefix[n]) + right =~= way + prefix);
                facts::behind_placed(right, *child, fork_way.push(prefix[n]));
                let old_part = tree::behind(right, *child);
                let choices = tree::no_choices().update(i, old_part);
                let branch = if m < new.len() {
                    facts::value_range(new[m]);
                    facts::way_step(new, fork_way);
                    tree::fork(choices.update(new[m].value(), tree::leaf(data, value)))
                } else {
                    facts::stands_at_pointwise(new, 0, fork_way);
                    assert(new =~= fork_way);
                    tree::fork_with_value(choices, data, value)
                };
                reveal_with_fuel(Tree::placed, 2);
                assert(branch.placed(fork_way));
                facts::behind_placed(left, branch, way);
            }
        },
        Tree::Branch { choices, .. } => {
            if at < new.len() {
                facts::value_range(new[at]);
                let i = new[at].value();
                assert(choices[i].placed(way.push(Nibble::of(i))));
                facts::way_step(new, way);
                insert_placed(choices[i], data, value, way.push(new[at]));
            } else {
                facts::stands_at_pointwise(new, 0, way);
                assert(new =~= way);
            }
        },
    }
}

proof fn leaf_insert_placed(t: Tree, data: Seq<u8>, value: Seq<u8>, way: Seq<Nibble>)
    requires
        t is Leaf,
        t.placed(way),
        nibble::stands_at(nibble::nibbles(data), 0, way),
    ensures
        t.insert(data, way.len() as int, value).placed(way),
{
    let new = nibble::nibbles(data);
    let at = way.len() as int;
    if let Tree::Leaf { path, value: own_value, .. } = t {
        let own = nibble::nibbles(path);
        let m = at + nibble::agreement(new, at, own, at);
        nibble::agreement_is_longest(new, at, own, at);
        facts::same_rest_pointwise(own, new, at);
        assert forall|i: int| at <= i < m implies new[i] == own[i] by {
            assert(new[at + (i - at)] == own[at + (i - at)]);
        }
        if !tree::same_rest(own, new, at) {
            let run = new.subrange(at, m);
            assert(run =~= own.subrange(at, m));
            assert(nibble::stands_at(new, at, run));
            assert(nibble::stands_at(own, at, run));
            facts::way_run(new, way, run);
            facts::way_run(own, way, run);
            let fork_way = way + run;
            let (old_leaf, new_leaf) = (tree::leaf(path, own_value), tree::leaf(data, value));
            if m < new.len() {
                facts::value_range(new[m]);
                facts::way_step(new, fork_way);
            } else {
                facts::stands_at_pointwise(new, 0, fork_way);
                assert(new =~= fork_way);
            }
            if m < own.len() {
                facts::value_range(own[m]);
                facts::way_step(own, fork_way);
            } else {
                facts::stands_at_pointwise(own, 0, fork_way);
                assert(own =~= fork_way);
            }
            let branch = if m == new.len() {
                tree::fork_with_value(
                    tree::no_choices().update(own[m].value(), old_leaf),
                    data,
                    value,
                )
            } else if m == own.len() {
                tree::fork_with_value(
                    tree::no_choices().update(new[m].value(), new_leaf),
                    path,
                    own_value,
                )
            } else {
                tree::fork(
                    tree::no_choices().update(own[m].value(), old_leaf).update(
                        new[m].value(),
                        new_leaf,
                    ),
                )
            };
            assert(t.insert(data, at, value) == tree::behind(run, branch));
            reveal_with_fuel(Tree::placed, 2);
            assert(branch.placed(fork_way));
            facts::behind_placed(run, branch, way);
        }
    }
}

/// An insertion leaves no node that could be spared, and turns no branch into another kind of
/// node.
pub proof fn insert_canonical(t: Tree, data: Seq<u8>, at: int, value: Seq<u8>)
    requires
        t.canonical(),
        t.fits(at),
        0 <= at <= nibble::nibbles(data).len(),
    ensures
        t.insert(data, at, value).canonical(),
        t.insert(data, at, value) !is Empty,
        t is Branch ==> t.insert(data, at, value) is Branch,
    decreases t,
{
    let new = nibble::nibbles(data);
    match t {
        Tree::Empty => {},
        Tree::Leaf { path, value: own_value, .. } => {
            leaf_insert_canonical(t, data, at, value);
        },
        Tree::Extension { prefix, child, .. } => {
            if nibble::stands_at(new, at, prefix) {
                insert_canonical(*child, data, at + prefix.len(), value);
            } else {
                facts::parting(new, at, prefix);
                let n = nibble::agreement(new, at, prefix, 0) as int;
                let m = at + n;
                let (left, right) = (prefix.take(n), prefix.skip(n + 1));
                facts::value_range(prefix[n]);
                let i = prefix[n].value();
                let old_part = tree::behind(right, *child);
                assert(old_part.canonical() && old_part !is Empty);
                let choices = tree::no_choices().update(i, old_part);
                if m < new.len() {
                    facts::value_range(new[m]);
                    if new[m].value() == i {
                        facts::value_injective(new[m], prefix[n]);
                    }
                    facts::two_choices(
                        i,
                        old_part,
                        new[m].value(),
                        tree::leaf(data, value),
                    );
                } else {
                    facts::one_choice(i, old_part, data, value);
                }
            }
        },
        Tree::Branch { choices, value: own_value, .. } => {
            if at < new.len() {
                facts::value_range(new[at]);
                let i = new[at].value();
                assert(choices[i].fits(at + 1));
                assert(choices[i].canonical());
                insert_canonical(choices[i], data, at + 1, value);
                let grown = choices.update(i, choices[i].insert(data, at + 1, value));
                assert(grown[i] !is Empty);
                if own_value is None && tree::has_sole(grown) {
                    let j = choose|j: int| tree::sole(grown, j);
                    assert(j == i);
                    assert forall|k: int| 0 <= k < choices.len() && k != i implies choices[k]
                        is Empty by {
                        assert(grown[k] is Empty);
                    }
                    if choices[i] is Empty {
                        assert(tree::all_empty(choices));
                    } else {
                        assert(tree::sole(choices, i));
                    }
                }
            }
        },
    }
}

proof fn leaf_insert_canonical(t: Tree, data: Seq<u8>, at: int, value: Seq<u8>)
    requires
        t is Leaf,
        t.fits(at),
        0 <= at <= nibble::nibbles(data).len(),
    ensures
        t.insert(data, at, value).canonical(),
        t.insert(data, at, value) !is Empty,
{
    let new = nibble::nibbles(data);
    if let Tree::Leaf { path, value: own_value, .. } = t {
        let own = nibble::nibbles(path);
        let m = at + nibble::agreement(new, at, own, at);
        nibble::agreement_is_longest(new, at, own, at);
        facts::same_rest_pointwise(own, new, at);
        assert forall|i: int| at <= i < m implies new[i] == own[i] by {
            assert(new[at + (i - at)] == own[at + (i - at)]);
        }
        if m < own.len() {
            facts::value_range(own[m]);
        }
        if m < new.len() {
            facts::value_range(new[m]);
        }
        if !tree::same_rest(own, new, at) {
            let (old_leaf, new_leaf) = (tree::leaf(path, own_value), tree::leaf(data, value));
            if m == new.len() {
                facts::one_choice(own[m].value(), old_leaf, data, value);
            } else if m == own.len() {
                facts::one_choice(new[m].value(), new_leaf, path, own_value);
            } else {
                if own[m].value() == new[m].value() {
                    facts::value_injective(own[m], new[m]);
                }
                facts::two_choices(own[m].value(), old_leaf, new[m].value(), new_leaf);
            }
        }
    }
}

/// A removal gives the value that the trie held.
pub proof fn remove_gives_held(t: Tree, key: Seq<Nibble>, at: int)
    ensures
        t.remove(key, at).1 == t.get(key, at),
    decreases t,
{
    match t {
        Tree::Extension { prefix, child, .. } => {
            remove_gives_held(*child, key, at + prefix.len());
        },
        Tree::Branch { choices, .. } => {
            if 0 <= at < key.len() {
                facts::value_range(key[at]);
                if key[at].value() < choices.len() {
                    remove_gives_held(choices[key[at].value()], key, at + 1);
                }
            }
        },
        _ => {},
    }
}

/// What takes the place of a branch holds what the branch held, each value where its key leads.
proof fn settled_holds(
    hash: Option<crate::trie::hashing::HashView>,
    choices: Seq<Tree>,
    path: Seq<u8>,
    value: Option<Seq<u8>>,
    way: Seq<Nibble>,
    key: Seq<Nibble>,
)
    requires
        (Tree::Branch { hash, choices, path, value }).placed(way),
        way.len() <= key.len(),
    ensures
        tree::settled(hash, choices, path, value).placed(way),
        tree::settled(hash, choices, path, value).get(key, way.len() as int) == (
        Tree::Branch { hash, choices, path, value }).get(key, way.len() as int),
{
    reveal_with_fuel(Tree::get, 2);
    let at = way.len() as int;
    if at < key.len() {
        facts::value_range(key[at]);
    }
    if tree::all_empty(choices) {
        if at < key.len() {
            assert(choices[key[at].value()] is Empty);
        }
        if value is Some {
            let own = nibble::nibbles(path);
            facts::stands_at_pointwise(own, 0, way);
            facts::same_rest_pointwise(own, key, at);
        }
    } else if value is None && tree::has_sole(choices) {
        let i = choose|i: int| tree::sole(choices, i);
        let only = choices[i];
        let nib = Nibble::of(i);
        facts::of_value(i);
        assert(only.placed(way.push(nib)));
        if at < key.len() {
            if key[at].value() == i {
                facts::value_injective(key[at], nib);
            } else {
                assert(choices[key[at].value()] is Empty);
            }
        }
        match only {
            Tree::Empty => {},
            Tree::Leaf { path: leaf_path, value: leaf_value, .. } => {
                let own = nibble::nibbles(leaf_path);
                facts::stands_at_pointwise(own, 0, way.push(nib));
                facts::stands_at_pointwise(own, 0, way);
                assert forall|k: int| 0 <= k < way.len() implies own[k] == way[k - 0] by {
                    assert(own[k] == way.push(nib)[k - 0]);
                }
                assert(own[at] == way.push(nib)[at - 0]);
                facts::same_rest_step(own, key, at);
            },
            Tree::Extension { prefix, child, .. } => {
                let run = seq![nib] + prefix;
                assert(way + run =~= way.push(nib) + prefix);
                facts::stands_at_split(key, at, run, 0);
                assert(run.skip(1) =~= prefix);
                assert(key.subrange(at, at) =~= run.take(0));
            },
            Tree::Branch { .. } => {
                let run = seq![nib];
                assert(way + run =~= way.push(nib));
                facts::stands_at_split(key, at, run, 0);
                assert(run.skip(1) =~= Seq::<Nibble>::empty());
                assert(key.subrange(at, at) =~= run.take(0));
                if at < key.len() {
                    assert(key.subrange(at + 1, at + 1) =~= Seq::<Nibble>::empty());
                }
            },
        }
    }
}

/// After a key was taken out, the trie holds nothing for it, and for every other key what it held
/// before; and every value still stands where its key leads.
pub proof fn remove_then_get(t: Tree, way: Seq<Nibble>, key: Seq<Nibble>, other: Seq<Nibble>)
    requires
        t.placed(way),
        way.len() <= key.len(),
        way.len() <= other.len(),
    ensures
        t.remove(key, way.len() as int).0.placed(way),
        t.remove(key, way.len() as int).0.get(other, way.len() as int) == (if tree::same_rest(
            key,
            other,
            way.len() as int,
        ) {
            None
        } else {
            t.get(other, way.len() as int)
        }),
    decreases t,
{
    let at = way.len() as int;
    match t {
        Tree::Empty => {},
        Tree::Leaf { path, .. } => {
            let own = nibble::nibbles(path);
            facts::stands_at_pointwise(own, 0, way);
            facts::same_rest_pointwise(own, key, at);
            facts::same_rest_pointwise(own, other, at);
            facts::same_rest_pointwise(key, other, at);
        },
        Tree::Extension { hash, prefix, child } => {
            if nibble::stands_at(key, at, prefix) {
                assert(prefix =~= key.subrange(at, at + prefix.len()));
                facts::same_rest_split(key, other, at, at + prefix.len());
                let longer = way + prefix;
                if nibble::stands_at(other, at, prefix) {
                    remove_then_get(*child, longer, key, other);
                } else {
                    remove_then_get(*child, longer, key, key);
                }
                let shrunk = child.remove(key, at + prefix.len()).0;
                facts::stands_at_pointwise(other, at, prefix);
                match shrunk {
                    Tree::Empty => {},
                    Tree::Branch { .. } => {},
                    Tree::Extension { prefix: inner, child: grandchild, .. } => {
                        assert(way + (prefix + inner) =~= longer + inner);
                        facts::stands_at_joined(other, at, prefix, inner);
                    },
                    Tree::Leaf { path, .. } => {
                        let own = nibble::nibbles(path);
                        facts::stands_at_pointwise(own, 0, longer);
                        facts::stands_at_pointwise(own, 0, way);
                        assert forall|k: int| 0 <= k < way.len() implies own[k] == way[k - 0] by {
                            assert(own[k] == longer[k - 0]);
                        }
                        assert(own.subrange(at, at + prefix.len()) =~= prefix) by {
                            assert forall|k: int| 0 <= k < prefix.len() implies own[at + k]
                                == prefix[k] by {
                                assert(own[at + k] == longer[at + k - 0]);
                            }
                        }
                        facts::same_rest_split(own, other, at, at + prefix.len());
                    },
                }
            } else {
                facts::same_rest_pointwise(key, other, at);
                facts::stands_at_pointwise(key, at, prefix);
                facts::stands_at_pointwise(other, at, prefix);
            }
        },
        Tree::Branch { hash, choices, path, value } => {
            if at < key.len() {
                facts::value_range(key[at]);
                facts::same_rest_step(key, other, at);
                let i = key[at].value();
                let (shrunk, old_value) = choices[i].remove(key, at + 1);
                let new_hash = if old_value is Some {
                    None
                } else {
                    hash
                };
                let rest = choices.update(i, shrunk);
                let whole = Tree::Branch { hash: new_hash, choices: rest, path, value };
                assert(choices[i].placed(way.push(Nibble::of(i))));
                if at < other.len() && other[at].value() == i {
                    facts::value_injective(other[at], key[at]);
                    remove_then_get(choices[i], way.push(Nibble::of(i)), key, other);
                } else {
                    remove_then_get(choices[i], way.push(Nibble::of(i)), key, key);
                }
                assert(whole.placed(way)) by {
                    assert forall|j: int| 0 <= j < rest.len() implies (#[trigger] rest[j]).placed(
                        way.push(Nibble::of(j)),
                    ) by {
                        if j != i {
                            assert(choices[j].placed(way.push(Nibble::of(j))));
                        }
                    }
                }
                settled_holds(new_hash, rest, path, value, way, other);
                if at < other.len() {
                    facts::value_range(other[at]);
                }
            } else {
                facts::same_rest_pointwise(key, other, at);
                if at < other.len() {
                    facts::value_range(other[at]);
                }
                if value is Some {
                    settled_holds(None, choices, Seq::empty(), None, way, other);
                } else {
                    settled_holds(hash, choices, path, value, way, other);
                }
            }
        },
    }
}

/// What takes the place of a branch cannot be spared.
proof fn settled_canonical(
    hash: Option<crate::trie::hashing::HashView>,
    choices: Seq<Tree>,
    path: Seq<u8>,
    value: Option<Seq<u8>>,
)
    requires
        choices.len() == 16,
        forall|i: int| 0 <= i < choices.len() ==> (#[trigger] choices[i]).canonical(),
    ensures
        tree::settled(hash, choices, path, value).canonical(),
{
    if !tree::all_empty(choices) && value is None && tree::has_sole(choices) {
        let i = choose|i: int| tree::sole(choices, i);
        let only = choices[i];
        assert(only.canonical());
        assert(tree::lifted(i, only).canonical());
    }
}

/// A removal leaves no node that could be spared. It never uses up a whole branch, and what takes
/// a branch's place holds no note of what was computed.
pub proof fn remove_canonical(t: Tree, key: Seq<Nibble>, at: int)
    requires
        t.canonical(),
    ensures
        t.remove(key, at).0.canonical(),
        t is Branch || t is Extension ==> t.remove(key, at).0 !is Empty,
        t is Branch ==> match t.remove(key, at).0 {
            Tree::Leaf { hash, .. } => hash is None,
            Tree::Extension { hash, .. } => hash is None,
            _ => true,
        },
    decreases t,
{
    match t {
        Tree::Extension { prefix, child, .. } => {
            remove_canonical(*child, key, at + prefix.len());
        },
        Tree::Branch { hash, choices, path, value } => {
            if 0 <= at < key.len() {
                facts::value_range(key[at]);
                let i = key[at].value();
                assert(choices[i].canonical());
                remove_canonical(choices[i], key, at + 1);
                let shrunk = choices[i].remove(key, at + 1).0;
                let rest = choices.update(i, shrunk);
                assert forall|j: int| 0 <= j < rest.len() implies (#[trigger] rest[j]).canonical() by {
                    if j != i {
                        assert(choices[j].canonical());
                    }
                }
                settled_canonical(hash, rest, path, value);
                settled_canonical(None, rest, path, value);
                if value is None && tree::all_empty(rest) {
                    assert forall|j: int| 0 <= j < choices.len() && j != i implies choices[j]
                        is Empty by {
                        assert(rest[j] is Empty);
                    }
                    if choices[i] is Empty {
                        assert(tree::all_empty(choices));
                    } else {
                        assert(tree::sole(choices, i));
                    }
                }
            } else {
                settled_canonical(None, choices, Seq::empty(), None);
            }
        },
        _ => {},
    }
}

/// To take out a key for which the trie holds nothing changes nothing.
pub proof fn remove_absent(t: Tree, key: Seq<Nibble>, at: int)
    requires
        t.canonical(),
        t.get(key, at) is None,
    ensures
        t.remove(key, at) == (t, None::<Seq<u8>>),
    decreases t,
{
    remove_gives_held(t, key, at);
    match t {
        Tree::Extension { prefix, child, .. } => {
            if nibble::stands_at(key, at, prefix) {
                remove_absent(*child, key, at + prefix.len());
            }
        },
        Tree::Branch { choices, .. } => {
            if 0 <= at < key.len() {
                facts::value_range(key[at]);
                let i = key[at].value();
                assert(choices[i].canonical());
                remove_absent(choices[i], key, at + 1);
                assert(choices.update(i, choices[i]) =~= choices);
            }
        },
        _ => {},
    }
}

/// Whether two tries that the nibbles `way` lead to hold the same values for the same keys.
pub open spec fn same_contents(a: Tree, b: Tree, way: Seq<Nibble>) -> bool {
    forall|key: Seq<Nibble>|
        #![trigger a.get(key, way.len() as int)]
        #![trigger b.get(key, way.len() as int)]
        nibble::stands_at(key, 0, way) ==> a.get(key, way.len() as int) == b.get(
            key,
            way.len() as int,
        )
}

/// A key for which a trie holds a value.
proof fn some_key(t: Tree, way: Seq<Nibble>) -> (key: Seq<Nibble>)
    requires
        t.placed(way),
        t.canonical(),
        t !is Empty,
    ensures
        nibble::stands_at(key, 0, way),
        t.get(key, way.len() as int) is Some,
    decreases t, 1nat,
{
    let at = way.len() as int;
    match t {
        Tree::Empty => way,
        Tree::Leaf { path, .. } => nibble::nibbles(path),
        Tree::Extension { prefix, child, .. } => {
            let key = some_key(*child, way + prefix);
            facts::way_parts(key, way, prefix);
            key
        },
        Tree::Branch { choices, path, value, .. } => {
            if value is Some {
                assert(way.subrange(0, at) =~= way);
                way
            } else {
                let i = choose|i: int| 0 <= i < choices.len() && choices[i] !is Empty;
                some_key_at(t, way, i)
            }
        },
    }
}

/// A key for which a branch holds a value at the choice `i`.
proof fn some_key_at(t: Tree, way: Seq<Nibble>, i: int) -> (key: Seq<Nibble>)
    requires
        t.placed(way),
        t.canonical(),
        t matches Tree::Branch { choices, .. } && 0 <= i < choices.len() && choices[i] !is Empty,
    ensures
        nibble::stands_at(key, 0, way),
        t.get(key, way.len() as int) is Some,
        way.len() < key.len(),
        key[way.len() as int].value() == i,
    decreases t, 0nat,
{
    if let Tree::Branch { choices, .. } = t {
        let longer = way.push(Nibble::of(i));
        assert(choices[i].placed(longer));
        assert(choices[i].canonical());
        facts::of_value(i);
        let key = some_key(choices[i], longer);
        assert(longer =~= way + seq![Nibble::of(i)]);
        facts::way_parts(key, way, seq![Nibble::of(i)]);
        facts::stands_at_pointwise(key, way.len() as int, seq![Nibble::of(i)]);
        key
    } else {
        way
    }
}

/// Two keys for which a branch holds a value, and which part at the branch.
proof fn two_keys(t: Tree, way: Seq<Nibble>) -> (keys: (Seq<Nibble>, Seq<Nibble>))
    requires
        t is Branch,
        t.placed(way),
        t.canonical(),
    ensures
        nibble::stands_at(keys.0, 0, way),
        nibble::stands_at(keys.1, 0, way),
        t.get(keys.0, way.len() as int) is Some,
        t.get(keys.1, way.len() as int) is Some,
        way.len() < keys.1.len(),
        way.len() < keys.0.len() ==> keys.0[way.len() as int] != keys.1[way.len() as int],
{
    if let Tree::Branch { choices, value, .. } = t {
        let j = choose|j: int| 0 <= j < choices.len() && choices[j] !is Empty;
        let second = some_key_at(t, way, j);
        if value is Some {
            assert(way.subrange(0, way.len() as int) =~= way);
            (way, second)
        } else {
            assert(!tree::sole(choices, j));
            let i = choose|i: int| 0 <= i < choices.len() && i != j && choices[i] !is Empty;
            let first = some_key_at(t, way, i);
            (first, second)
        }
    } else {
        (way, way)
    }
}

/// A leaf holds a value for its own key only.
proof fn leaf_key(t: Tree, way: Seq<Nibble>, key: Seq<Nibble>)
    requires
        t.placed(way),
        nibble::stands_at(key, 0, way),
        t matches Tree::Leaf { .. },
        t.get(key, way.len() as int) is Some,
    ensures
        t matches Tree::Leaf { path, .. } && key == nibble::nibbles(path),
{
    if let Tree::Leaf { path, .. } = t {
        let own = nibble::nibbles(path);
        facts::same_rest_pointwise(own, key, way.len() as int);
        facts::stands_at_pointwise(own, 0, way);
        facts::stands_at_pointwise(key, 0, way);
        assert forall|i: int| 0 <= i < own.len() implies own[i] == key[i] by {
            if i < way.len() {
                assert(own[i] == way[i - 0]);
                assert(key[i] == way[i - 0]);
            }
        }
        assert(own =~= key);
    }
}

/// A leaf never holds what a branch or an extension holds.
proof fn leaf_differs(a: Tree, b: Tree, way: Seq<Nibble>)
    requires
        a is Leaf,
        b is Branch || b is Extension,
        a.placed(way),
        b.placed(way),
        b.canonical(),
    ensures
        !same_contents(a, b, way),
{
    let at = way.len() as int;
    let (first, second) = match b {
        Tree::Extension { prefix, child, .. } => {
            let (first, second) = two_keys(*child, way + prefix);
            facts::way_parts(first, way, prefix);
            facts::way_parts(second, way, prefix);
            (first, second)
        },
        _ => two_keys(b, way),
    };
    assert(b.get(first, at) is Some && b.get(second, at) is Some);
    if same_contents(a, b, way) {
        leaf_key(a, way, first);
        leaf_key(a, way, second);
    }
}

/// An extension never holds what a branch holds.
proof fn extension_differs(a: Tree, b: Tree, way: Seq<Nibble>)
    requires
        a is Extension,
        b is Branch,
        a.canonical(),
        b.placed(way),
        b.canonical(),
    ensures
        !same_contents(a, b, way),
{
    let at = way.len() as int;
    let (first, second) = two_keys(b, way);
    assert(b.get(first, at) is Some && b.get(second, at) is Some);
    if let Tree::Extension { prefix, .. } = a {
        if same_contents(a, b, way) {
            facts::stands_at_pointwise(first, at, prefix);
            facts::stands_at_pointwise(second, at, prefix);
            assert(first[at] == prefix[at - at]);
            assert(second[at] == prefix[at - at]);
        }
    }
}

/// Of two extensions that hold the same, the first's prefix starts with the second's.
proof fn prefix_not_shorter(a: Tree, b: Tree, way: Seq<Nibble>)
    requires
        a is Extension,
        b is Extension,
        a.placed(way),
        a.canonical(),
        same_contents(a, b, way),
    ensures
        a matches Tree::Extension { prefix: p, .. } && b matches Tree::Extension { prefix: q, .. }
            && p.len() >= q.len() && p.take(q.len() as int) == q,
{
    let at = way.len() as int;
    if let Tree::Extension { prefix: p, child, .. } = a {
        if let Tree::Extension { prefix: q, .. } = b {
            let (first, second) = two_keys(*child, way + p);
            facts::way_parts(first, way, p);
            facts::way_parts(second, way, p);
            assert(a.get(first, at) is Some && a.get(second, at) is Some);
            assert(nibble::stands_at(first, at, q) && nibble::stands_at(second, at, q));
            facts::stands_at_pointwise(first, at, q);
            facts::stands_at_pointwise(second, at, q);
            if p.len() < q.len() {
                let m = at + p.len();
                assert(first[m] == q[m - at]);
                assert(second[m] == q[m - at]);
            }
            facts::stands_at_pointwise(first, at, p);
            assert forall|k: int| 0 <= k < q.len() implies p[k] == q[k] by {
                assert(first[at + k] == p[(at + k) - at]);
                assert(first[at + k] == q[(at + k) - at]);
            }
            assert(p.take(q.len() as int) =~= q);
        }
    }
}

/// Where no node can be spared, what a trie holds decides how it is built.
pub proof fn contents_decide(a: Tree, b: Tree, way: Seq<Nibble>)
    requires
        a.placed(way),
        b.placed(way),
        a.canonical(),
        b.canonical(),
        same_contents(a, b, way),
    ensures
        a.bare() == b.bare(),
    decreases a, 1nat,
{
    let at = way.len() as int;
    assert(same_contents(b, a, way));
    if a is Empty || b is Empty {
        if a !is Empty {
            let key = some_key(a, way);
            assert(b.get(key, at) is None);
        }
        if b !is Empty {
            let key = some_key(b, way);
            assert(a.get(key, at) is None);
        }
    } else {
        match (a, b) {
            (Tree::Leaf { path: p, .. }, Tree::Leaf { path: q, .. }) => {
                let key = nibble::nibbles(p);
                assert(a.get(key, at) is Some);
                leaf_key(b, way, key);
                nibble::nibbles_injective(p, q);
            },
            (Tree::Leaf { .. }, _) => {
                leaf_differs(a, b, way);
            },
            (_, Tree::Leaf { .. }) => {
                leaf_differs(b, a, way);
            },
            (Tree::Extension { prefix: p, child: c, .. }, Tree::Extension {
                prefix: q,
                child: d,
                ..
            }) => {
                prefix_not_shorter(a, b, way);
                prefix_not_shorter(b, a, way);
                assert(p =~= q);
                let longer = way + p;
                assert forall|key: Seq<Nibble>|
                    #![trigger c.get(key, longer.len() as int)]
                    #![trigger d.get(key, longer.len() as int)]
                    nibble::stands_at(key, 0, longer) implies c.get(key, longer.len() as int)
                    == d.get(key, longer.len() as int) by {
                    facts::way_parts(key, way, p);
                    assert(a.get(key, at) == c.get(key, at + p.len()));
                    assert(b.get(key, at) == d.get(key, at + p.len()));
                }
                contents_decide(*c, *d, longer);
            },
            (Tree::Extension { .. }, _) => {
                extension_differs(a, b, way);
            },
            (_, Tree::Extension { .. }) => {
                extension_differs(b, a, way);
            },
            (Tree::Branch { .. }, Tree::Branch { .. }) => {
                branches_decide(a, b, way);
            },
            _ => {},
        }
    }
}

proof fn branches_decide(a: Tree, b: Tree, way: Seq<Nibble>)
    requires
        a is Branch,
        b is Branch,
        a.placed(way),
        b.placed(way),
        a.canonical(),
        b.canonical(),
        same_contents(a, b, way),
    ensures
        a.bare() == b.bare(),
    decreases a, 0nat,
{
    let at = way.len() as int;
    if let Tree::Branch { choices: c, path: p, value: v, .. } = a {
        if let Tree::Branch { choices: d, path: q, value: w, .. } = b {
            assert(way.subrange(0, at) =~= way);
            assert(a.get(way, at) == v);
            assert(b.get(way, at) == w);
            if v is Some {
                nibble::nibbles_injective(p, q);
            }
            assert forall|i: int| 0 <= i < 16 implies c[i].bare() == d[i].bare() by {
                let longer = way.push(Nibble::of(i));
                facts::of_value(i);
                assert(c[i].placed(longer) && d[i].placed(longer));
                assert(c[i].canonical() && d[i].canonical());
                assert forall|key: Seq<Nibble>|
                    #![trigger c[i].get(key, longer.len() as int)]
                    #![trigger d[i].get(key, longer.len() as int)]
                    nibble::stands_at(key, 0, longer) implies c[i].get(key, longer.len() as int)
                    == d[i].get(key, longer.len() as int) by {
                    assert(longer =~= way + seq![Nibble::of(i)]);
                    facts::way_parts(key, way, seq![Nibble::of(i)]);
                    facts::stands_at_pointwise(key, at, seq![Nibble::of(i)]);
                    assert(key[at] == seq![Nibble::of(i)][at - at]);
                    assert(a.get(key, at) == c[i].get(key, at + 1));
                    assert(b.get(key, at) == d[i].get(key, at + 1));
                }
                contents_decide(c[i], d[i], longer);
            }
            if let Tree::Branch { choices: x, .. } = a.bare() {
                if let Tree::Branch { choices: y, .. } = b.bare() {
                    assert(x =~= y);
                }
            }
        }
    }
}

/// In which order two different keys are put in makes no difference.
pub proof fn insert_order(
    t: Tree,
    way: Seq<Nibble>,
    first: Seq<u8>,
    first_value: Seq<u8>,
    second: Seq<u8>,
    second_value: Seq<u8>,
)
    requires
        t.placed(way),
        t.canonical(),
        nibble::stands_at(nibble::nibbles(first), 0, way),
        nibble::stands_at(nibble::nibbles(second), 0, way),
        first != second,
    ensures
        t.insert(first, way.len() as int, first_value).insert(
            second,
            way.len() as int,
            second_value,
        ).bare() == t.insert(second, way.len() as int, second_value).insert(
            first,
            way.len() as int,
            first_value,
        ).bare(),
{
    let at = way.len() as int;
    let (p, q) = (nibble::nibbles(first), nibble::nibbles(second));
    if p == q {
        nibble::nibbles_injective(first, second);
    }
    facts::same_rest_after(p, q, way);
    insert_keeps(t, first, first_value, way);
    insert_keeps(t, second, second_value, way);
    let a = t.insert(first, at, first_value);
    let b = t.insert(second, at, second_value);
    insert_keeps(a, second, second_value, way);
    insert_keeps(b, first, first_value, way);
    let (x, y) = (a.insert(second, at, second_value), b.insert(first, at, first_value));
    assert forall|key: Seq<Nibble>|
        #![trigger x.get(key, at)]
        #![trigger y.get(key, at)]
        nibble::stands_at(key, 0, way) implies x.get(key, at) == y.get(key, at) by {
        insert_then_get(t, first, at, first_value, key);
        insert_then_get(t, second, at, second_value, key);
        insert_then_get(a, second, at, second_value, key);
        insert_then_get(b, first, at, first_value, key);
        facts::same_rest_pointwise(p, key, at);
        facts::same_rest_pointwise(q, key, at);
        facts::same_rest_pointwise(p, q, at);
    }
    contents_decide(x, y, way);
}

/// An insertion keeps everything in place and leaves no node that could be spared.
proof fn insert_keeps(t: Tree, data: Seq<u8>, value: Seq<u8>, way: Seq<Nibble>)
    requires
        t.placed(way),
        t.canonical(),
        nibble::stands_at(nibble::nibbles(data), 0, way),
    ensures
        t.fits(way.len() as int),
        t.insert(data, way.len() as int, value).fits(way.len() as int),
        t.insert(data, way.len() as int, value).placed(way),
        t.insert(data, way.len() as int, value).canonical(),
{
    placed_fits(t, way);
    insert_placed(t, data, value, way);
    insert_canonical(t, data, way.len() as int, value);
    placed_fits(t.insert(data, way.len() as int, value), way);
}

/// Of two insertions for the same key the second alone counts.
pub proof fn insert_again(
    t: Tree,
    way: Seq<Nibble>,
    data: Seq<u8>,
    first_value: Seq<u8>,
    second_value: Seq<u8>,
)
    requires
        t.placed(way),
        t.canonical(),
        nibble::stands_at(nibble::nibbles(data), 0, way),
    ensures
        t.insert(data, way.len() as int, first_value).insert(
            data,
            way.len() as int,
            second_value,
        ).bare() == t.insert(data, way.len() as int, second_value).bare(),
{
    let at = way.len() as int;
    insert_keeps(t, data, first_value, way);
    insert_keeps(t, data, second_value, way);
    let a = t.insert(data, at, first_value);
    insert_keeps(a, data, second_value, way);
    let (x, y) = (a.insert(data, at, second_value), t.insert(data, at, second_value));
    assert forall|key: Seq<Nibble>|
        #![trigger x.get(key, at)]
        #![trigger y.get(key, at)]
        nibble::stands_at(key, 0, way) implies x.get(key, at) == y.get(key, at) by {
        insert_then_get(t, data, at, first_value, key);
        insert_then_get(t, data, at, second_value, key);
        insert_then_get(a, data, at, second_value, key);
    }
    contents_decide(x, y, way);
}

/// To take out a key that was just put in undoes the insertion.
pub proof fn remove_undoes_insert(t: Tree, way: Seq<Nibble>, data: Seq<u8>, value: Seq<u8>)
    requires
        t.placed(way),
        t.canonical(),
        nibble::stands_at(nibble::nibbles(data), 0, way),
        t.get(nibble::nibbles(data), way.len() as int) is None,
    ensures
        ({
            let grown = t.insert(data, way.len() as int, value);
            let (shrunk, removed) = grown.remove(nibble::nibbles(data), way.len() as int);
            &&& shrunk.bare() == t.bare()
            &&& removed == Some(value)
        }),
{
    let at = way.len() as int;
    let key = nibble::nibbles(data);
    insert_keeps(t, data, value, way);
    let grown = t.insert(data, at, value);
    let shrunk = grown.remove(key, at).0;
    remove_canonical(grown, key, at);
    remove_then_get(grown, way, key, key);
    remove_gives_held(grown, key, at);
    facts::same_rest_pointwise(key, key, at);
    insert_then_get(t, data, at, value, key);
    assert forall|other: Seq<Nibble>|
        #![trigger shrunk.get(other, at)]
        #![trigger t.get(other, at)]
        nibble::stands_at(other, 0, way) implies shrunk.get(other, at) == t.get(other, at) by {
        remove_then_get(grown, way, key, other);
        insert_then_get(t, data, at, value, other);
        facts::same_rest_after(key, other, way);
    }
    contents_decide(shrunk, t, way);
}

/// To put back what was taken out undoes the removal.
pub proof fn insert_undoes_remove(t: Tree, way: Seq<Nibble>, data: Seq<u8>)
    requires
        t.placed(way),
        t.canonical(),
        nibble::stands_at(nibble::nibbles(data), 0, way),
        t.get(nibble::nibbles(data), way.len() as int) is Some,
    ensures
        ({
            let (shrunk, removed) = t.remove(nibble::nibbles(data), way.len() as int);
            &&& removed is Some
            &&& shrunk.insert(data, way.len() as int, removed->0).bare() == t.bare()
        }),
{
    let at = way.len() as int;
    let key = nibble::nibbles(data);
    let (shrunk, removed) = t.remove(key, at);
    remove_canonical(t, key, at);
    remove_then_get(t, way, key, key);
    remove_gives_held(t, key, at);
    insert_keeps(shrunk, data, removed->0, way);
    let grown = shrunk.insert(data, at, removed->0);
    assert forall|other: Seq<Nibble>|
        #![trigger grown.get(other, at)]
        #![trigger t.get(other, at)]
        nibble::stands_at(other, 0, way) implies grown.get(other, at) == t.get(other, at) by {
        remove_then_get(t, way, key, other);
        insert_then_get(shrunk, data, at, removed->0, other);
        facts::same_rest_after(key, other, way);
    }
    contents_decide(grown, t, way);
}

/// An insertion into an extension gives an extension whose prefix starts the old one, or a branch.
pub proof fn insert_into_extension(t: Tree, data: Seq<u8>, at: int, value: Seq<u8>)
    requires
        t is Extension,
        0 <= at <= nibble::nibbles(data).len(),
    ensures
        t matches Tree::Extension { prefix, .. } && match t.insert(data, at, value) {
            Tree::Extension { hash, prefix: new_prefix, .. } => {
                &&& hash is None
                &&& nibble::stands_at(prefix, 0, new_prefix)
                &&& nibble::stands_at(nibble::nibbles(data), at, new_prefix)
            },
            Tree::Branch { hash, .. } => hash is None,
            _ => false,
        },
{
    if let Tree::Extension { prefix, .. } = t {
        let new = nibble::nibbles(data);
        if nibble::stands_at(new, at, prefix) {
            assert(prefix.subrange(0, prefix.len() as int) =~= prefix);
        } else {
            facts::parting(new, at, prefix);
            let n = nibble::agreement(new, at, prefix, 0) as int;
            assert(prefix.subrange(0, n) =~= prefix.take(n));
        }
    }
}

/// A removal from an extension that cannot be spared gives an extension whose prefix starts with
/// the old one, or a leaf.
pub proof fn remove_from_extension(t: Tree, key: Seq<Nibble>, at: int)
    requires
        t is Extension,
        t.canonical(),
    ensures
        t matches Tree::Extension { prefix, .. } && match t.remove(key, at).0 {
            Tree::Extension { prefix: new_prefix, .. } => nibble::stands_at(
                new_prefix,
                0,
                prefix,
            ),
            Tree::Leaf { .. } => true,
            _ => false,
        },
{
    remove_canonical(t, key, at);
    if let Tree::Extension { prefix, child, .. } = t {
        assert(prefix.subrange(0, prefix.len() as int) =~= prefix);
        if let Tree::Extension { prefix: inner, .. } = child.remove(key, at + prefix.len()).0 {
            assert((prefix + inner).subrange(0, prefix.len() as int) =~= prefix);
        }
    }
}

/// An insertion stores at most one node for each nibble left of its key, and one more.
pub proof fn insert_cost_bounded(t: Tree, data: Seq<u8>, at: int)
    requires
        t.canonical(),
        t.fits(at),
        0 <= at <= nibble::nibbles(data).len(),
    ensures
        t.insert_cost(data, at) <= nibble::nibbles(data).len() - at + 1,
    decreases t,
{
    let key = nibble::nibbles(data);
    match t {
        Tree::Empty => {},
        Tree::Leaf { path, .. } => {
            let own = nibble::nibbles(path);
            if !tree::same_rest(own, key, at) {
                facts::keys_part(key, own, at);
            }
        },
        Tree::Extension { prefix, child, .. } => {
            if nibble::stands_at(key, at, prefix) {
                insert_cost_bounded(*child, data, at + prefix.len());
            } else {
                facts::parting(key, at, prefix);
            }
        },
        Tree::Branch { choices, .. } => {
            if at < key.len() {
                facts::value_range(key[at]);
                insert_cost_bounded(choices[key[at].value()], data, at + 1);
            }
        },
    }
}

/// A removal stores at most one node for each nibble left of its key.
pub proof fn remove_cost_bounded(t: Tree, key: Seq<Nibble>, at: int)
    requires
        t.canonical(),
        0 <= at <= key.len(),
    ensures
        t.remove_cost(key, at) <= key.len() - at,
    decreases t,
{
    match t {
        Tree::Extension { prefix, child, .. } => {
            if nibble::stands_at(key, at, prefix) {
                remove_cost_bounded(*child, key, at + prefix.len());
            }
        },
        Tree::Branch { choices, .. } => {
            if at < key.len() {
                facts::value_range(key[at]);
                remove_cost_bounded(choices[key[at].value()], key, at + 1);
            }
        },
        _ => {},
    }
}

} // verus!
