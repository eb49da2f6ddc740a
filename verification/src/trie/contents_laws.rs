//! What a trie holds: the values that its nodes store, each under its key; and how what a node holds
//! follows from what the nodes below it hold.

use crate::trie::facts;
use crate::trie::laws;
use crate::trie::nibble;
use crate::trie::nibble::Nibble;
use crate::trie::tree;
use crate::trie::tree::Tree;
use vstd::prelude::*;

verus! {

impl Tree {
    /// Whether some node of the trie, wherever it stands, stores `value` with the key `path`.
    pub open spec fn stores(self, path: Seq<u8>, value: Seq<u8>) -> bool
        decreases self,
    {
        match self {
            Tree::Empty => false,
            Tree::Leaf { path: own, value: own_value, .. } => path == own && value == own_value,
            Tree::Extension { child, .. } => child.stores(path, value),
            Tree::Branch { choices, path: own, value: own_value, .. } => {
                ||| path == own && own_value == Some(value)
                ||| exists|i: int|
                    0 <= i < choices.len() && (#[trigger] choices[i]).stores(path, value)
            },
        }
    }
}

/// A leaf holds its value for the keys that are, from where the leaf stands on, its own key, and
/// nothing for all others.
pub proof fn leaf_holds_its_key(t: Tree, key: Seq<Nibble>, at: int)
    requires
        0 <= at <= key.len(),
    ensures
        t matches Tree::Leaf { path, value, .. } ==> t.get(key, at) == (if key.len() == 2
            * path.len() && forall|i: int|
            at <= i < key.len() ==> key[i] == #[trigger] nibble::nibbles(path)[i] {
            Some(value)
        } else {
            None
        }),
{
    if let Tree::Leaf { path, .. } = t {
        let own = nibble::nibbles(path);
        assert(own.len() == 2 * path.len());
        if own.len() == key.len() {
            facts::same_rest_pointwise(own, key, at);
        }
    }
}

/// For keys that go on by its prefix, an extension holds what its child holds.
pub proof fn extension_holds_its_child(t: Tree, front: Seq<Nibble>, rest: Seq<Nibble>)
    ensures
        t matches Tree::Extension { prefix, child, .. } ==> t.get(
            front + prefix + rest,
            front.len() as int,
        ) == child.get(front + prefix + rest, (front.len() + prefix.len()) as int),
{
    if let Tree::Extension { prefix, .. } = t {
        let key = front + prefix + rest;
        assert(key.subrange(front.len() as int, (front.len() + prefix.len()) as int) =~= prefix);
    }
}

/// For keys that do not go on by its prefix, an extension holds nothing.
pub proof fn extension_holds_nothing_else(t: Tree, key: Seq<Nibble>, at: int, i: int)
    requires
        0 <= at,
        t matches Tree::Extension { prefix, .. } && 0 <= i < prefix.len() && (at + i >= key.len()
            || key[at + i] != prefix[i]),
    ensures
        t.get(key, at) is None,
{
    if let Tree::Extension { prefix, .. } = t {
        facts::stands_at_pointwise(key, at, prefix);
    }
}

/// For keys that go on by some nibble, a branch holds what the node at the choice of that number
/// holds; for the key that ends at the branch it holds its own value.
pub proof fn branch_holds_its_choices(
    t: Tree,
    front: Seq<Nibble>,
    next: Nibble,
    rest: Seq<Nibble>,
)
    requires
        t matches Tree::Branch { choices, .. } && choices.len() == 16,
    ensures
        t matches Tree::Branch { choices, value, .. } && {
            &&& t.get(front.push(next) + rest, front.len() as int)
                == choices[next.value()].get(front.push(next) + rest, (front.len() + 1) as int)
            &&& t.get(front, front.len() as int) == value
        },
{
    facts::value_range(next);
    let key = front.push(next) + rest;
    assert(key[front.len() as int] == next);
}

/// No trie holds nothing.
pub proof fn nothing_in_no_trie(key: Seq<Nibble>, at: int)
    ensures
        Tree::Empty.get(key, at) is None,
{
}

/// The key of every stored value starts with the nibbles that led to the trie. Behind an extension
/// it goes on by the prefix, and at a branch's choice by the nibble of that number.
pub proof fn keys_lead_to_their_values(t: Tree, way: Seq<Nibble>, path: Seq<u8>, value: Seq<u8>)
    requires
        t.placed(way),
        t.stores(path, value),
    ensures
        way.len() <= 2 * path.len(),
        forall|i: int| 0 <= i < way.len() ==> #[trigger] way[i] == nibble::nibbles(path)[i],
        t matches Tree::Extension { prefix, .. } ==> way.len() + prefix.len() <= 2 * path.len()
            && forall|i: int|
            0 <= i < prefix.len() ==> #[trigger] prefix[i] == nibble::nibbles(path)[way.len() + i],
        t matches Tree::Branch { choices, .. } ==> forall|i: int|
            0 <= i < choices.len() && (#[trigger] choices[i]).stores(path, value) ==> way.len() < 2
                * path.len() && nibble::nibbles(path)[way.len() as int].value() == i,
    decreases t,
{
    let key = nibble::nibbles(path);
    assert(key.len() == 2 * path.len());
    match t {
        Tree::Empty => {},
        Tree::Leaf { .. } => {
            facts::stands_at_pointwise(key, 0, way);
            assert forall|i: int| 0 <= i < way.len() implies #[trigger] way[i] == key[i] by {
                assert(key[i] == way[i - 0]);
            }
        },
        Tree::Extension { prefix, child, .. } => {
            let longer = way + prefix;
            keys_lead_to_their_values(*child, longer, path, value);
            assert forall|i: int| 0 <= i < way.len() implies #[trigger] way[i] == key[i] by {
                assert(longer[i] == way[i]);
            }
            assert forall|i: int| 0 <= i < prefix.len() implies #[trigger] prefix[i] == key[way.len()
                + i] by {
                assert(longer[way.len() + i] == prefix[i]);
            }
        },
        Tree::Branch { choices, path: own, value: own_value, .. } => {
            assert forall|i: int|
                0 <= i < choices.len() && (#[trigger] choices[i]).stores(path, value) implies way.len()
                < key.len() && key[way.len() as int].value() == i && forall|j: int|
                0 <= j < way.len() ==> #[trigger] way[j] == key[j] by {
                let longer = way.push(Nibble::of(i));
                keys_lead_to_their_values(choices[i], longer, path, value);
                facts::of_value(i);
                assert(longer[way.len() as int] == Nibble::of(i));
                assert forall|j: int| 0 <= j < way.len() implies #[trigger] way[j] == key[j] by {
                    assert(longer[j] == way[j]);
                }
            }
        },
    }
}

/// A look-up finds exactly the values that nodes store, wherever they stand, each under the key
/// that it is stored with.
pub proof fn get_finds_what_is_stored(t: Tree, way: Seq<Nibble>, path: Seq<u8>, value: Seq<u8>)
    requires
        t.placed(way),
        nibble::stands_at(nibble::nibbles(path), 0, way),
    ensures
        t.get(nibble::nibbles(path), way.len() as int) == Some(value) <==> t.stores(path, value),
    decreases t,
{
    let key = nibble::nibbles(path);
    let at = way.len() as int;
    match t {
        Tree::Empty => {},
        Tree::Leaf { path: own, .. } => {
            facts::same_rest_after(nibble::nibbles(own), key, way);
            if nibble::nibbles(own) == key {
                nibble::nibbles_injective(own, path);
            }
        },
        Tree::Extension { prefix, child, .. } => {
            if nibble::stands_at(key, at, prefix) {
                facts::way_run(key, way, prefix);
                get_finds_what_is_stored(*child, way + prefix, path, value);
                assert((way + prefix).len() == at + prefix.len());
            } else if t.stores(path, value) {
                keys_lead_to_their_values(t, way, path, value);
                facts::stands_at_pointwise(key, at, prefix);
                assert forall|i: int| at <= i < at + prefix.len() implies key[i] == prefix[i
                    - at] by {
                    assert(prefix[i - at] == key[at + (i - at)]);
                }
            }
        },
        Tree::Branch { choices, path: own, value: own_value, .. } => {
            if at < key.len() {
                let i = key[at].value();
                facts::value_range(key[at]);
                facts::way_step(key, way);
                get_finds_what_is_stored(choices[i], way.push(key[at]), path, value);
                if t.stores(path, value) {
                    if path == own && own_value == Some(value) {
                        assert(key == way);
                    }
                    keys_lead_to_their_values(t, way, path, value);
                    assert(choices[i].stores(path, value));
                }
            } else {
                facts::stands_at_pointwise(key, 0, way);
                assert(key =~= way) by {
                    assert forall|j: int| 0 <= j < key.len() implies key[j] == way[j] by {
                        assert(key[j] == way[j - 0]);
                    }
                }
                if own_value is Some {
                    nibble::nibbles_injective(own, path);
                }
                if t.stores(path, value) && !(path == own && own_value == Some(value)) {
                    keys_lead_to_their_values(t, way, path, value);
                }
            }
        },
    }
}

/// The key of a stored value starts with the nibbles that led to the trie.
proof fn stored_key_stands(t: Tree, way: Seq<Nibble>, path: Seq<u8>, value: Seq<u8>)
    requires
        t.placed(way),
        t.stores(path, value),
    ensures
        nibble::stands_at(nibble::nibbles(path), 0, way),
{
    keys_lead_to_their_values(t, way, path, value);
    let key = nibble::nibbles(path);
    facts::stands_at_pointwise(key, 0, way);
    assert forall|i: int| 0 <= i < 0 + way.len() implies key[i] == way[i - 0] by {
        assert(way[i] == key[i]);
    }
}

/// After an insertion the nodes store the new value under its key and no other value for that key,
/// and for every other key what they stored before.
pub proof fn insert_changes_what_is_stored(
    t: Tree,
    way: Seq<Nibble>,
    data: Seq<u8>,
    value: Seq<u8>,
    path: Seq<u8>,
    held: Seq<u8>,
)
    requires
        t.placed(way),
        nibble::stands_at(nibble::nibbles(data), 0, way),
    ensures
        t.insert(data, way.len() as int, value).stores(path, held) <==> (if path == data {
            held == value
        } else {
            t.stores(path, held)
        }),
{
    let at = way.len() as int;
    let (key, other) = (nibble::nibbles(data), nibble::nibbles(path));
    let new = t.insert(data, at, value);
    laws::placed_fits(t, way);
    laws::insert_placed(t, data, value, way);
    if new.stores(path, held) {
        stored_key_stands(new, way, path, held);
    }
    if t.stores(path, held) {
        stored_key_stands(t, way, path, held);
    }
    if nibble::stands_at(other, 0, way) {
        get_finds_what_is_stored(new, way, path, held);
        get_finds_what_is_stored(t, way, path, held);
        laws::insert_then_get(t, data, at, value, other);
        facts::same_rest_after(key, other, way);
        if key == other {
            nibble::nibbles_injective(data, path);
        }
    }
}

/// After a removal the nodes store nothing for the key, and for every other key what they stored
/// before.
pub proof fn remove_changes_what_is_stored(
    t: Tree,
    way: Seq<Nibble>,
    data: Seq<u8>,
    path: Seq<u8>,
    held: Seq<u8>,
)
    requires
        t.placed(way),
        nibble::stands_at(nibble::nibbles(data), 0, way),
    ensures
        t.remove(nibble::nibbles(data), way.len() as int).0.stores(path, held) <==> path != data
            && t.stores(path, held),
{
    let at = way.len() as int;
    let (key, other) = (nibble::nibbles(data), nibble::nibbles(path));
    let new = t.remove(key, at).0;
    laws::remove_then_get(t, way, key, key);
    if new.stores(path, held) {
        stored_key_stands(new, way, path, held);
    }
    if t.stores(path, held) {
        stored_key_stands(t, way, path, held);
    }
    if nibble::stands_at(other, 0, way) {
        get_finds_what_is_stored(new, way, path, held);
        get_finds_what_is_stored(t, way, path, held);
        laws::remove_then_get(t, way, key, other);
        facts::same_rest_after(key, other, way);
        if key == other {
            nibble::nibbles_injective(data, path);
        }
    }
}

/// A leaf alone, and no node at all, are tries in which every value stands where its key leads, no
/// node can be spared and no note is wrong.
pub proof fn leaf_alone(path: Seq<u8>, value: Seq<u8>, way: Seq<Nibble>)
    requires
        nibble::stands_at(nibble::nibbles(path), 0, way),
    ensures
        ({
            let t = Tree::Leaf { hash: None, path, value };
            let at = way.len() as int;
            &&& t.placed(way) && t.canonical() && t.coherent(at) && t.fits(at)
            &&& 2 * path.len() <= usize::MAX ==> t.countable()
            &&& t.stores(path, value)
        }),
        Tree::Empty.placed(way) && Tree::Empty.canonical() && Tree::Empty.coherent(
            way.len() as int,
        ) && Tree::Empty.fits(way.len() as int) && Tree::Empty.countable(),
{
    facts::stands_at_pointwise(nibble::nibbles(path), 0, way);
}

/// Every value stands where its key leads if that is so of the parts: behind an extension's prefix,
/// at each of sixteen choices behind the nibble of its number, and, where a key ends at a branch,
/// there.
pub proof fn placed_by_parts(t: Tree, way: Seq<Nibble>)
    ensures
        t matches Tree::Extension { prefix, child, .. } ==> (t.placed(way) <==> child.placed(
            way + prefix,
        )),
        t matches Tree::Branch { choices, path, value, .. } ==> (t.placed(way) <==> {
            &&& choices.len() == 16
            &&& value is Some ==> nibble::nibbles(path) == way
            &&& choices.len() == 16 ==> forall|n: Nibble|
                (#[trigger] choices[n.value()]).placed(way.push(n))
        }),
{
    if let Tree::Branch { choices, path, value, .. } = t {
        if t.placed(way) {
            assert forall|n: Nibble| (#[trigger] choices[n.value()]).placed(way.push(n)) by {
                facts::value_range(n);
            }
        }
        if choices.len() == 16 && (value is Some ==> nibble::nibbles(path) == way) && forall|n: Nibble|
            (#[trigger] choices[n.value()]).placed(way.push(n)) {
            assert forall|i: int| 0 <= i < choices.len() implies (#[trigger] choices[i]).placed(
                way.push(Nibble::of(i)),
            ) by {
                facts::of_value(i);
                assert(choices[Nibble::of(i).value()].placed(way.push(Nibble::of(i))));
            }
        }
    }
}

/// No node can be spared if that is so of the parts, if every extension has a prefix and leads to a
/// branch, and if every branch has two nodes below it, or one and a value.
pub proof fn canonical_by_parts(t: Tree)
    ensures
        t matches Tree::Extension { prefix, child, .. } ==> (t.canonical() <==> prefix.len() > 0
            && *child is Branch && child.canonical()),
        t matches Tree::Branch { choices, value, .. } ==> (t.canonical() <==> {
            &&& choices.len() == 16
            &&& forall|i: int| 0 <= i < 16 ==> (#[trigger] choices[i]).canonical()
            &&& exists|i: int|
                0 <= i < 16 && #[trigger] choices[i] !is Empty && (value is Some || exists|j: int|
                    0 <= j < 16 && j != i && #[trigger] choices[j] !is Empty)
        }),
{
    if let Tree::Branch { choices, value, .. } = t {
        if t.canonical() {
            let i = choose|i: int| 0 <= i < choices.len() && choices[i] !is Empty;
            assert(choices[i] !is Empty);
            if value is None {
                assert(!tree::sole(choices, i));
                let j = choose|j: int|
                    0 <= j < choices.len() && j != i && choices[j] !is Empty;
                assert(choices[j] !is Empty);
            }
        }
        if choices.len() == 16 && exists|i: int|
            0 <= i < 16 && #[trigger] choices[i] !is Empty && (value is Some || exists|j: int|
                0 <= j < 16 && j != i && #[trigger] choices[j] !is Empty) {
            let i = choose|i: int|
                0 <= i < 16 && #[trigger] choices[i] !is Empty && (value is Some || exists|j: int|
                    0 <= j < 16 && j != i && #[trigger] choices[j] !is Empty);
            if value is None {
                let j = choose|j: int|
                    0 <= j < 16 && j != i && #[trigger] choices[j] !is Empty;
                if tree::has_sole(choices) {
                    let k = choose|k: int| tree::sole(choices, k);
                    assert(choices[i] is Empty || choices[j] is Empty);
                }
            }
        }
    }
}

/// Every leaf's key is long enough if that is so of the parts.
pub proof fn fits_by_parts(t: Tree, at: int)
    ensures
        t matches Tree::Leaf { path, .. } ==> (t.fits(at) <==> at <= 2 * path.len()),
        t matches Tree::Extension { prefix, child, .. } ==> (t.fits(at) <==> child.fits(
            at + prefix.len(),
        )),
        t matches Tree::Branch { choices, .. } ==> (t.fits(at) <==> choices.len() == 16
            && forall|i: int| 0 <= i < 16 ==> (#[trigger] choices[i]).fits(at + 1)),
{
}

/// No note is wrong if that is so of the parts, and if the node's own note, if it has one, is what
/// is computed without notes.
pub proof fn coherent_by_parts(t: Tree, at: int)
    ensures
        t matches Tree::Leaf { hash, .. } ==> (t.coherent(at) <==> (hash matches Some(h) ==> h
            == t.bare().hashed(at))),
        t matches Tree::Extension { hash, prefix, child } ==> (t.coherent(at) <==> child.coherent(
            at + prefix.len(),
        ) && (hash matches Some(h) ==> h == t.bare().hashed(at))),
        t matches Tree::Branch { hash, choices, .. } ==> (t.coherent(at) <==> (forall|i: int|
            0 <= i < choices.len() ==> (#[trigger] choices[i]).coherent(at + 1)) && (
        hash matches Some(h) ==> h == t.bare().hashed(at))),
{
}

/// Without its notes a trie has the same nodes in the same places, and no note.
pub proof fn bare_by_parts(t: Tree)
    ensures
        t is Empty ==> t.bare() is Empty,
        t matches Tree::Leaf { path, value, .. } ==> t.bare() == (Tree::Leaf {
            hash: None,
            path,
            value,
        }),
        t matches Tree::Extension { prefix, child, .. } ==> t.bare() == (Tree::Extension {
            hash: None,
            prefix,
            child: Box::new(child.bare()),
        }),
        t matches Tree::Branch { choices, path, value, .. } ==> (t.bare() matches Tree::Branch {
            hash: None,
            choices: bare_choices,
            path: bare_path,
            value: bare_value,
        } && bare_value == value && (value is Some ==> bare_path == path) && (value is None
            ==> bare_path.len() == 0) && bare_choices.len() == choices.len() && forall|i: int|
            0 <= i < choices.len() ==> #[trigger] bare_choices[i] == choices[i].bare()),
{
}

/// Without its notes a trie holds what it holds with them.
pub proof fn bare_holds_the_same(t: Tree, key: Seq<Nibble>, at: int)
    ensures
        t.bare().get(key, at) == t.get(key, at),
    decreases t,
{
    match t {
        Tree::Extension { prefix, child, .. } => {
            bare_holds_the_same(*child, key, at + prefix.len());
        },
        Tree::Branch { choices, .. } => {
            if 0 <= at < key.len() {
                facts::value_range(key[at]);
                if key[at].value() < choices.len() {
                    bare_holds_the_same(choices[key[at].value()], key, at + 1);
                }
            }
        },
        _ => {},
    }
}

/// To note what stands for a trie changes nothing else.
pub proof fn noted_by_parts(t: Tree, h: crate::trie::hashing::HashView)
    ensures
        t.noted(h) == (match t {
            Tree::Empty => Tree::Empty,
            Tree::Leaf { path, value, .. } => Tree::Leaf { hash: Some(h), path, value },
            Tree::Extension { prefix, child, .. } => Tree::Extension {
                hash: Some(h),
                prefix,
                child,
            },
            Tree::Branch { choices, path, value, .. } => Tree::Branch {
                hash: Some(h),
                choices,
                path,
                value,
            },
        }),
{
}

/// Two tries hold the same exactly if look-ups of every key that leads to them find the same.
pub proof fn same_contents_is_same_look_ups(a: Tree, b: Tree, way: Seq<Nibble>)
    requires
        forall|rest: Seq<Nibble>|
            #[trigger] a.get(way + rest, way.len() as int) == b.get(way + rest, way.len() as int),
    ensures
        laws::same_contents(a, b, way),
{
    assert forall|key: Seq<Nibble>|
        #![trigger a.get(key, way.len() as int)]
        #![trigger b.get(key, way.len() as int)]
        nibble::stands_at(key, 0, way) implies a.get(key, way.len() as int) == b.get(
        key,
        way.len() as int,
    ) by {
        let rest = key.skip(way.len() as int);
        assert(key.subrange(0, way.len() as int) == way);
        assert(way + rest =~= key) by {
            assert(key.subrange(0, way.len() as int) + rest =~= key);
        }
        assert(a.get(way + rest, way.len() as int) == b.get(way + rest, way.len() as int));
    }
}

/// How many nodes an insertion stores, and a removal: behind a prefix or at a choice as many as the
/// operation stores there, and the changed child, if one is left that must be stored.
pub proof fn costs_by_parts(t: Tree, data: Seq<u8>, at: int)
    requires
        0 <= at <= 2 * data.len(),
        t matches Tree::Branch { choices, .. } ==> choices.len() == 16,
    ensures
        ({
            let key = nibble::nibbles(data);
            &&& t matches Tree::Extension { prefix, child, .. } ==> ({
                let next = at + prefix.len();
                if next <= key.len() && key.subrange(at, next) == prefix {
                    &&& t.insert_cost(data, at) == child.insert_cost(data, next) + 1
                    &&& t.remove_cost(key, at) == child.remove_cost(key, next) + (
                    if child.remove(key, next).0 is Branch {
                        1nat
                    } else {
                        0nat
                    })
                } else {
                    t.remove_cost(key, at) == 0
                }
            })
            &&& t matches Tree::Branch { choices, .. } ==> (if at < key.len() {
                let child = choices[key[at].value()];
                &&& t.insert_cost(data, at) == child.insert_cost(data, at + 1) + 1
                &&& t.remove_cost(key, at) == child.remove_cost(key, at + 1) + (if child.remove(
                    key,
                    at + 1,
                ).0 is Empty {
                    0nat
                } else {
                    1nat
                })
            } else {
                t.insert_cost(data, at) == 0 && t.remove_cost(key, at) == 0
            })
            &&& t is Leaf || t is Empty ==> t.remove_cost(key, at) == 0
            &&& t is Empty ==> t.insert_cost(data, at) == 0
            &&& t matches Tree::Leaf { path, .. } ==> (path == data ==> t.insert_cost(data, at)
                == 0)
        }),
{
    let key = nibble::nibbles(data);
    if at < key.len() {
        facts::value_range(key[at]);
    }
    facts::same_rest_pointwise(key, key, at);
}

/// When a look-up, a removal or hashing has to read the store: where an extension's prefix or a
/// branch's choice leads on, where a branch gives its place to its only node, and where no note is
/// found.
pub proof fn reads_by_parts(t: Tree, key: Seq<Nibble>, at: int)
    requires
        0 <= at <= key.len(),
        t matches Tree::Branch { choices, .. } ==> choices.len() == 16,
    ensures
        t matches Tree::Extension { hash, prefix, .. } ==> {
            &&& t.get_reads(key, at) <==> at + prefix.len() <= key.len() && key.subrange(
                at,
                at + prefix.len(),
            ) == prefix
            &&& t.remove_reads(key, at) <==> t.get_reads(key, at)
            &&& t.hash_reads() <==> hash is None
        },
        t matches Tree::Branch { hash, choices, value, .. } ==> {
            &&& t.get_reads(key, at) <==> at < key.len() && choices[key[at].value()] !is Empty
            &&& t.remove_reads(key, at) <==> t.get_reads(key, at) || ((value is None || at
                == key.len()) && exists|i: int|
                0 <= i < 16 && #[trigger] choices[i] !is Empty && forall|j: int|
                    0 <= j < 16 && j != i ==> #[trigger] choices[j] is Empty)
            &&& t.hash_reads() <==> hash is None && exists|i: int|
                0 <= i < 16 && #[trigger] choices[i] !is Empty
        },
        t is Leaf || t is Empty ==> !t.get_reads(key, at) && !t.remove_reads(key, at)
            && !t.hash_reads(),
{
    if let Tree::Branch { choices, .. } = t {
        if exists|i: int|
            0 <= i < 16 && #[trigger] choices[i] !is Empty && forall|j: int|
                0 <= j < 16 && j != i ==> #[trigger] choices[j] is Empty {
            let i = choose|i: int|
                0 <= i < 16 && #[trigger] choices[i] !is Empty && forall|j: int|
                    0 <= j < 16 && j != i ==> #[trigger] choices[j] is Empty;
            assert(tree::sole(choices, i));
        }
        if tree::has_sole(choices) {
            let i = choose|i: int| tree::sole(choices, i);
            assert(tree::sole(choices, i));
            assert(choices[i] !is Empty);
        }
    }
}

} // verus!
