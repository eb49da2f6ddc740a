//! What holds of the notes that nodes keep of what stands for them.

use crate::trie::facts;
use crate::trie::laws;
use crate::trie::nibble;
use crate::trie::nibble::Nibble;
use crate::trie::tree;
use crate::trie::tree::Tree;
use vstd::prelude::*;

verus! {

/// Where every note is right, what stands for a trie does not depend on which notes there are.
pub proof fn notes_do_not_matter(t: Tree, at: int)
    requires
        t.coherent(at),
    ensures
        t.hashed(at) == t.bare().hashed(at),
    decreases t,
{
    match t {
        Tree::Extension { prefix, child, .. } => {
            notes_do_not_matter(*child, at + prefix.len());
        },
        Tree::Branch { hash, choices, .. } => {
            if let Tree::Branch { choices: others, .. } = t.bare() {
                assert forall|i: int| 0 <= i < choices.len() implies choices[i].hashed(at + 1)
                    == others[i].hashed(at + 1) by {
                    assert(choices[i].coherent(at + 1));
                    notes_do_not_matter(choices[i], at + 1);
                }
                same_payload(choices, others, at + 1, choices.len());
            }
        },
        _ => {},
    }
}

/// Choices for which the same stands have the same items.
proof fn same_payload(a: Seq<Tree>, b: Seq<Tree>, at: int, count: nat)
    requires
        a.len() == b.len(),
        count <= a.len(),
        forall|i: int| 0 <= i < a.len() ==> #[trigger] a[i].hashed(at) == b[i].hashed(at),
    ensures
        tree::choices_payload(a, at, count) == tree::choices_payload(b, at, count),
    decreases count,
{
    if count > 0 {
        same_payload(a, b, at, (count - 1) as nat);
        assert(a[count - 1].hashed(at) == b[count - 1].hashed(at));
    }
}

/// A node that notes what stands for it has a right note.
pub proof fn noted_coherent(t: Tree, at: int)
    requires
        t.coherent(at),
    ensures
        t.noted(t.hashed(at)).coherent(at),
        t.noted(t.hashed(at)).bare() == t.bare(),
        t !is Empty ==> t.noted(t.hashed(at)).hashed(at) == t.hashed(at),
{
    notes_do_not_matter(t, at);
    let noted = t.noted(t.hashed(at));
    assert(noted.bare() == t.bare());
}

/// A branch without a note has no wrong note if its choices have none.
proof fn fork_coherent(choices: Seq<Tree>, path: Seq<u8>, value: Option<Seq<u8>>, at: int)
    requires
        forall|i: int| 0 <= i < choices.len() ==> (#[trigger] choices[i]).coherent(at + 1),
    ensures
        (Tree::Branch { hash: None, choices, path, value }).coherent(at),
{
}

/// What stands behind a prefix without a note has no wrong note if it has none there.
proof fn behind_coherent(prefix: Seq<Nibble>, t: Tree, at: int)
    requires
        t.coherent(at + prefix.len()),
    ensures
        tree::behind(prefix, t).coherent(at),
{
}

proof fn leaf_insert_coherent(t: Tree, data: Seq<u8>, at: int, value: Seq<u8>)
    requires
        t is Leaf,
        t.fits(at),
        0 <= at <= nibble::nibbles(data).len(),
    ensures
        t.insert(data, at, value).coherent(at),
{
    let new = nibble::nibbles(data);
    if let Tree::Leaf { path, value: own_value, .. } = t {
        let own = nibble::nibbles(path);
        let m = at + nibble::agreement(new, at, own, at);
        nibble::agreement_is_longest(new, at, own, at);
        if !tree::same_rest(own, new, at) {
            let (old_leaf, new_leaf) = (tree::leaf(path, own_value), tree::leaf(data, value));
            assert(old_leaf.coherent(m + 1) && new_leaf.coherent(m + 1));
            assert(Tree::Empty.coherent(m + 1));
            let run = new.subrange(at, m);
            let one = tree::no_choices().update(own[m].value(), old_leaf);
            let two = tree::no_choices().update(new[m].value(), new_leaf);
            let both = one.update(new[m].value(), new_leaf);
            facts::value_range(own[m]);
            facts::value_range(new[m]);
            if m == new.len() {
                fork_coherent(one, data, Some(value), m);
                behind_coherent(run, tree::fork_with_value(one, data, value), at);
            } else if m == own.len() {
                fork_coherent(two, path, Some(own_value), m);
                behind_coherent(run, tree::fork_with_value(two, path, own_value), at);
            } else {
                fork_coherent(both, Seq::empty(), None, m);
                behind_coherent(run, tree::fork(both), at);
            }
        }
    }
}

proof fn parted_insert_coherent(t: Tree, data: Seq<u8>, at: int, value: Seq<u8>)
    requires
        t matches Tree::Extension { prefix, .. } && !nibble::stands_at(
            nibble::nibbles(data),
            at,
            prefix,
        ),
        t.coherent(at),
        0 <= at <= nibble::nibbles(data).len(),
    ensures
        t.insert(data, at, value).coherent(at),
{
    let new = nibble::nibbles(data);
    if let Tree::Extension { prefix, child, .. } = t {
        facts::parting(new, at, prefix);
        let n = nibble::agreement(new, at, prefix, 0) as int;
        let m = at + n;
        let (left, right) = (prefix.take(n), prefix.skip(n + 1));
        facts::value_range(prefix[n]);
        behind_coherent(right, *child, m + 1);
        let one = tree::no_choices().update(prefix[n].value(), tree::behind(right, *child));
        let new_leaf = tree::leaf(data, value);
        assert(new_leaf.coherent(m + 1));
        assert(Tree::Empty.coherent(m + 1));
        let both = one.update(new[m].value(), new_leaf);
        facts::value_range(new[m]);
        if m < new.len() {
            fork_coherent(both, Seq::empty(), None, m);
            behind_coherent(left, tree::fork(both), at);
        } else {
            fork_coherent(one, data, Some(value), m);
            behind_coherent(left, tree::fork_with_value(one, data, value), at);
        }
    }
}

/// An insertion leaves no wrong note.
pub proof fn insert_coherent(t: Tree, data: Seq<u8>, at: int, value: Seq<u8>)
    requires
        t.coherent(at),
        t.fits(at),
        0 <= at <= nibble::nibbles(data).len(),
    ensures
        t.insert(data, at, value).coherent(at),
    decreases t,
{
    let new = nibble::nibbles(data);
    match t {
        Tree::Empty => {},
        Tree::Leaf { .. } => {
            leaf_insert_coherent(t, data, at, value);
        },
        Tree::Extension { prefix, child, .. } => {
            if nibble::stands_at(new, at, prefix) {
                insert_coherent(*child, data, at + prefix.len(), value);
            } else {
                parted_insert_coherent(t, data, at, value);
            }
        },
        Tree::Branch { choices, .. } => {
            if at < new.len() {
                facts::value_range(new[at]);
                let i = new[at].value();
                assert(choices[i].fits(at + 1));
                assert(choices[i].coherent(at + 1));
                insert_coherent(choices[i], data, at + 1, value);
            }
        },
    }
}

/// What takes the place of a branch without a note has no wrong note.
proof fn settled_coherent(
    choices: Seq<Tree>,
    path: Seq<u8>,
    value: Option<Seq<u8>>,
    at: int,
)
    requires
        forall|i: int| 0 <= i < choices.len() ==> (#[trigger] choices[i]).coherent(at + 1),
    ensures
        tree::settled(None, choices, path, value).coherent(at),
{
    if !tree::all_empty(choices) && value is None && tree::has_sole(choices) {
        let i = choose|i: int| tree::sole(choices, i);
        let only = choices[i];
        assert(only.coherent(at + 1));
        assert(tree::lifted(i, only).coherent(at));
    }
}

/// A removal leaves no wrong note where no node can be spared.
pub proof fn remove_coherent(t: Tree, key: Seq<Nibble>, at: int)
    requires
        t.canonical(),
        t.coherent(at),
    ensures
        t.remove(key, at).0.coherent(at),
    decreases t,
{
    if t.get(key, at) is None {
        laws::remove_absent(t, key, at);
    } else {
        laws::remove_gives_held(t, key, at);
        match t {
            Tree::Extension { prefix, child, .. } => {
                remove_coherent(*child, key, at + prefix.len());
                laws::remove_canonical(*child, key, at + prefix.len());
                let shrunk = child.remove(key, at + prefix.len()).0;
                assert(tree::extended(None, prefix, shrunk).coherent(at));
            },
            Tree::Branch { choices, path, value, .. } => {
                if 0 <= at < key.len() {
                    facts::value_range(key[at]);
                    let i = key[at].value();
                    assert(choices[i].canonical());
                    assert(choices[i].coherent(at + 1));
                    remove_coherent(choices[i], key, at + 1);
                    let rest = choices.update(i, choices[i].remove(key, at + 1).0);
                    assert forall|j: int| 0 <= j < rest.len() implies (
                    #[trigger] rest[j]).coherent(at + 1) by {
                        if j != i {
                            assert(choices[j].coherent(at + 1));
                        }
                    }
                    settled_coherent(rest, path, value, at);
                } else {
                    settled_coherent(choices, Seq::empty(), None, at);
                }
            },
            _ => {},
        }
    }
}

/// What stands for a trie is decided by what the trie holds: neither the order of insertions and
/// removals nor what was computed in between makes a difference.
pub proof fn contents_decide_hash(a: Tree, b: Tree, way: Seq<Nibble>)
    requires
        a.placed(way),
        b.placed(way),
        a.canonical(),
        b.canonical(),
        a.coherent(way.len() as int),
        b.coherent(way.len() as int),
        laws::same_contents(a, b, way),
    ensures
        a.hashed(way.len() as int) == b.hashed(way.len() as int),
{
    laws::contents_decide(a, b, way);
    notes_do_not_matter(a, way.len() as int);
    notes_do_not_matter(b, way.len() as int);
}

/// Where every value stands where its key leads and no node can be spared, hashing never counts
/// more nibbles than can be counted.
pub proof fn hashing_in_range(t: Tree, way: Seq<Nibble>)
    requires
        t.placed(way),
        t.canonical(),
        t.countable(),
        t !is Empty,
    ensures
        way.len() + t.span() <= usize::MAX,
    decreases t,
{
    match t {
        Tree::Empty => {},
        Tree::Leaf { .. } => {},
        Tree::Extension { prefix, child, .. } => {
            hashing_in_range(*child, way + prefix);
        },
        Tree::Branch { choices, .. } => {
            assert forall|i: int| 0 <= i < choices.len() && choices[i] !is Empty implies way.len()
                + 1 + (#[trigger] choices[i]).span() <= usize::MAX by {
                hashing_in_range(choices[i], way.push(Nibble::of(i)));
            }
            let i = choose|i: int| 0 <= i < choices.len() && choices[i] !is Empty;
            assert(choices[i] !is Empty);
            choices_span_within(choices, choices.len(), (usize::MAX - way.len()) as nat);
        },
    }
}

/// If hashing comes no further than some bound by way of each choice, it comes no further by way
/// of all.
proof fn choices_span_within(choices: Seq<Tree>, count: nat, bound: nat)
    requires
        count <= choices.len(),
        forall|i: int|
            0 <= i < choices.len() && choices[i] !is Empty ==> 1 + (#[trigger] choices[i]).span()
                <= bound,
    ensures
        tree::choices_span(choices, count) <= bound,
    decreases count,
{
    if count > 0 {
        choices_span_within(choices, (count - 1) as nat, bound);
        assert(choices[count - 1] is Empty || 1 + choices[count - 1].span() <= bound);
    }
}

} // verus!
