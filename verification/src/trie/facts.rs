//! Facts about keys and the parts of tries that the laws rest on.

use crate::trie::nibble;
use crate::trie::nibble::Nibble;
use crate::trie::tree;
use crate::trie::tree::Tree;
use vstd::prelude::*;

verus! {

/// Nibbles with the same value are the same.
pub proof fn value_injective(a: Nibble, b: Nibble)
    requires
        a.value() == b.value(),
    ensures
        a == b,
{
}

/// Values of nibbles are numbers below sixteen.
pub proof fn value_range(a: Nibble)
    ensures
        0 <= a.value() < 16,
        Nibble::of(a.value()) == a,
{
}

/// The number below sixteen that a nibble was made of is its value.
pub proof fn of_value(i: int)
    requires
        0 <= i < 16,
    ensures
        Nibble::of(i).value() == i,
{
}

/// Keys are the same from some position on if they are as long and agree at each position.
pub proof fn same_rest_pointwise(a: Seq<Nibble>, b: Seq<Nibble>, at: int)
    requires
        0 <= at <= a.len(),
    ensures
        tree::same_rest(a, b, at) <==> (a.len() == b.len() && forall|i: int|
            at <= i < a.len() ==> a[i] == b[i]),
{
    if tree::same_rest(a, b, at) {
        assert forall|i: int| at <= i < a.len() implies a[i] == b[i] by {
            assert(a.skip(at)[i - at] == b.skip(at)[i - at]);
        }
    }
    if a.len() == b.len() && forall|i: int| at <= i < a.len() ==> a[i] == b[i] {
        assert(a.skip(at) =~= b.skip(at));
    }
}

/// A run stands in a path if it fits and agrees at each position.
pub proof fn stands_at_pointwise(path: Seq<Nibble>, at: int, run: Seq<Nibble>)
    requires
        0 <= at,
    ensures
        nibble::stands_at(path, at, run) <==> (at + run.len() <= path.len() && forall|i: int|
            at <= i < at + run.len() ==> path[i] == run[i - at]),
{
    if nibble::stands_at(path, at, run) {
        assert forall|i: int| at <= i < at + run.len() implies path[i] == run[i - at] by {
            assert(path.subrange(at, at + run.len())[i - at] == run[i - at]);
        }
    }
    if at + run.len() <= path.len() && forall|i: int|
        at <= i < at + run.len() ==> path[i] == run[i - at] {
        assert(path.subrange(at, at + run.len()) =~= run);
    }
}

/// To agree from `at` on is to agree up to `m` and from there on.
pub proof fn same_rest_split(a: Seq<Nibble>, b: Seq<Nibble>, at: int, m: int)
    requires
        0 <= at <= m <= a.len(),
    ensures
        tree::same_rest(a, b, at) <==> nibble::stands_at(b, at, a.subrange(at, m))
            && tree::same_rest(a, b, m),
{
    same_rest_pointwise(a, b, at);
    same_rest_pointwise(a, b, m);
    stands_at_pointwise(b, at, a.subrange(at, m));
    if nibble::stands_at(b, at, a.subrange(at, m)) && tree::same_rest(a, b, m) {
        assert forall|i: int| at <= i < a.len() implies a[i] == b[i] by {
            if i < m {
                assert(b[i] == a.subrange(at, m)[i - at]);
            }
        }
    }
}

/// To agree from `at` on is to agree at `at` and from the next position on.
pub proof fn same_rest_step(a: Seq<Nibble>, b: Seq<Nibble>, at: int)
    requires
        0 <= at < a.len(),
    ensures
        tree::same_rest(a, b, at) <==> at < b.len() && a[at] == b[at] && tree::same_rest(
            a,
            b,
            at + 1,
        ),
{
    same_rest_pointwise(a, b, at);
    same_rest_pointwise(a, b, at + 1);
    if at < b.len() && a[at] == b[at] && tree::same_rest(a, b, at + 1) {
        assert forall|i: int| at <= i < a.len() implies a[i] == b[i] by {
            if i > at {
                assert((at + 1) <= i);
            }
        }
    }
}

/// What a trie behind a prefix holds.
pub proof fn behind_get(prefix: Seq<Nibble>, t: Tree, key: Seq<Nibble>, at: int)
    requires
        0 <= at <= key.len(),
    ensures
        tree::behind(prefix, t).get(key, at) == (if nibble::stands_at(key, at, prefix) {
            t.get(key, at + prefix.len())
        } else {
            None
        }),
{
    if prefix.len() == 0 {
        assert(key.subrange(at, at) =~= prefix);
    }
}

/// A run stands in a path if its first part does and then what comes after.
pub proof fn stands_at_split(path: Seq<Nibble>, at: int, run: Seq<Nibble>, n: int)
    requires
        0 <= at,
        0 <= n < run.len(),
    ensures
        nibble::stands_at(path, at, run) <==> nibble::stands_at(path, at, run.take(n)) && at + n
            < path.len() && path[at + n] == run[n] && nibble::stands_at(
            path,
            at + n + 1,
            run.skip(n + 1),
        ),
{
    stands_at_pointwise(path, at, run);
    stands_at_pointwise(path, at, run.take(n));
    stands_at_pointwise(path, at + n + 1, run.skip(n + 1));
    if nibble::stands_at(path, at, run) {
        assert forall|i: int| at <= i < at + n implies path[i] == run.take(n)[i - at] by {}
        assert forall|i: int|
            at + n + 1 <= i < at + n + 1 + run.skip(n + 1).len() implies path[i] == run.skip(
            n + 1,
        )[i - (at + n + 1)] by {
            assert(path[i] == run[i - at]);
        }
    }
    if nibble::stands_at(path, at, run.take(n)) && at + n < path.len() && path[at + n] == run[n]
        && nibble::stands_at(path, at + n + 1, run.skip(n + 1)) {
        assert forall|i: int| at <= i < at + run.len() implies path[i] == run[i - at] by {
            if i < at + n {
                assert(path[i] == run.take(n)[i - at]);
            } else if i > at + n {
                assert(path[i] == run.skip(n + 1)[i - (at + n + 1)]);
            }
        }
    }
}

/// Where a run that does not stand in a path parts from it.
pub proof fn parting(path: Seq<Nibble>, at: int, run: Seq<Nibble>)
    requires
        0 <= at <= path.len(),
        !nibble::stands_at(path, at, run),
    ensures
        ({
            let n = nibble::agreement(path, at, run, 0) as int;
            &&& n < run.len()
            &&& at + n <= path.len()
            &&& run.take(n) == path.subrange(at, at + n)
            &&& at + n < path.len() ==> path[at + n] != run[n]
        }),
{
    let n = nibble::agreement(path, at, run, 0) as int;
    nibble::agreement_is_longest(path, at, run, 0);
    stands_at_pointwise(path, at, run);
    assert forall|i: int| at <= i < at + n implies path[i] == run[i - at] by {
        assert(path[at + (i - at)] == run[0 + (i - at)]);
    }
    assert(run.take(n) =~= path.subrange(at, at + n));
    assert(at + n < path.len() && n < run.len() ==> path[at + n] != run[0 + n]);
}

/// Where two keys that are not the same from some position on part from each other.
pub proof fn keys_part(a: Seq<Nibble>, b: Seq<Nibble>, at: int)
    requires
        0 <= at <= a.len(),
        at <= b.len(),
        !tree::same_rest(b, a, at),
    ensures
        ({
            let m = at + nibble::agreement(a, at, b, at);
            &&& m <= a.len()
            &&& m <= b.len()
            &&& m < a.len() || m < b.len()
            &&& m < a.len() && m < b.len() ==> a[m] != b[m]
        }),
{
    let n = nibble::agreement(a, at, b, at) as int;
    nibble::agreement_is_longest(a, at, b, at);
    same_rest_pointwise(b, a, at);
    if at + n == a.len() && at + n == b.len() {
        assert forall|i: int| at <= i < b.len() implies b[i] == a[i] by {
            assert(a[at + (i - at)] == b[at + (i - at)]);
        }
    }
}

/// At most one choice holds the only node.
pub proof fn sole_unique(choices: Seq<Tree>, i: int)
    requires
        tree::sole(choices, i),
    ensures
        tree::has_sole(choices),
        !tree::all_empty(choices),
        (choose|j: int| tree::sole(choices, j)) == i,
{
    let j = choose|j: int| tree::sole(choices, j);
    assert(tree::sole(choices, j));
}

/// The nibbles that led to a place, and one more.
pub proof fn way_step(key: Seq<Nibble>, way: Seq<Nibble>)
    requires
        nibble::stands_at(key, 0, way),
        way.len() < key.len(),
    ensures
        nibble::stands_at(key, 0, way.push(key[way.len() as int])),
{
    stands_at_pointwise(key, 0, way);
    let longer = way.push(key[way.len() as int]);
    stands_at_pointwise(key, 0, longer);
    assert forall|i: int| 0 <= i < longer.len() implies key[i] == longer[i - 0] by {
        if i < way.len() {
            assert(key[i] == way[i - 0]);
        }
    }
}

/// The nibbles that led to a place, and a run that stands there.
pub proof fn way_run(key: Seq<Nibble>, way: Seq<Nibble>, run: Seq<Nibble>)
    requires
        nibble::stands_at(key, 0, way),
        nibble::stands_at(key, way.len() as int, run),
    ensures
        nibble::stands_at(key, 0, way + run),
{
    stands_at_pointwise(key, 0, way);
    stands_at_pointwise(key, way.len() as int, run);
    let longer = way + run;
    stands_at_pointwise(key, 0, longer);
    assert forall|i: int| 0 <= i < longer.len() implies key[i] == longer[i - 0] by {
        if i < way.len() {
            assert(key[i] == way[i - 0]);
        } else {
            assert(key[i] == run[i - way.len()]);
        }
    }
}

/// A trie behind a prefix is placed if the trie is placed after the prefix.
pub proof fn behind_placed(prefix: Seq<Nibble>, t: Tree, way: Seq<Nibble>)
    ensures
        tree::behind(prefix, t).placed(way) == t.placed(way + prefix),
{
    if prefix.len() == 0 {
        assert(way + prefix =~= way);
    }
}

/// A trie behind a prefix fits if the trie fits after the prefix.
pub proof fn behind_fits(prefix: Seq<Nibble>, t: Tree, at: int)
    ensures
        tree::behind(prefix, t).fits(at) == t.fits(at + prefix.len()),
{
}

/// Two runs stand one after the other if they stand as one.
pub proof fn stands_at_joined(path: Seq<Nibble>, at: int, a: Seq<Nibble>, b: Seq<Nibble>)
    requires
        0 <= at,
    ensures
        nibble::stands_at(path, at, a + b) <==> nibble::stands_at(path, at, a)
            && nibble::stands_at(path, at + a.len(), b),
{
    stands_at_pointwise(path, at, a);
    stands_at_pointwise(path, at + a.len(), b);
    stands_at_pointwise(path, at, a + b);
    if nibble::stands_at(path, at, a + b) {
        assert forall|i: int| at <= i < at + a.len() implies path[i] == a[i - at] by {
            assert(path[i] == (a + b)[i - at]);
        }
        assert forall|i: int| at + a.len() <= i < at + a.len() + b.len() implies path[i] == b[i - (
        at + a.len())] by {
            assert(path[i] == (a + b)[i - at]);
        }
    }
    if nibble::stands_at(path, at, a) && nibble::stands_at(path, at + a.len(), b) {
        assert forall|i: int| at <= i < at + (a + b).len() implies path[i] == (a + b)[i - at] by {
            if i < at + a.len() {
                assert(path[i] == a[i - at]);
            } else {
                assert(path[i] == b[i - (at + a.len())]);
            }
        }
    }
}

/// Each choice that holds a node lies within the span.
pub proof fn choice_within_span(choices: Seq<Tree>, count: nat, i: int)
    requires
        0 <= i < count <= choices.len(),
        choices[i] !is Empty,
    ensures
        1 + choices[i].span() <= tree::choices_span(choices, count),
    decreases count,
{
    if i < count - 1 {
        choice_within_span(choices, (count - 1) as nat, i);
    }
}

/// A fork of two different ways cannot be spared.
pub proof fn two_choices(i: int, a: Tree, j: int, b: Tree)
    requires
        0 <= i < 16,
        0 <= j < 16,
        i != j,
        a.canonical(),
        b.canonical(),
        a !is Empty,
        b !is Empty,
    ensures
        tree::fork(tree::no_choices().update(i, a).update(j, b)).canonical(),
{
    let choices = tree::no_choices().update(i, a).update(j, b);
    assert(choices[i] == a && choices[j] == b);
    if tree::has_sole(choices) {
        let k = choose|k: int| tree::sole(choices, k);
        if k == i {
            assert(choices[j] is Empty);
        } else {
            assert(choices[i] is Empty);
        }
    }
    assert forall|k: int| 0 <= k < choices.len() implies (#[trigger] choices[k]).canonical() by {}
}

/// A fork of one way and a value cannot be spared.
pub proof fn one_choice(i: int, a: Tree, path: Seq<u8>, value: Seq<u8>)
    requires
        0 <= i < 16,
        a.canonical(),
        a !is Empty,
    ensures
        tree::fork_with_value(tree::no_choices().update(i, a), path, value).canonical(),
{
    let choices = tree::no_choices().update(i, a);
    assert(choices[i] == a);
    assert forall|k: int| 0 <= k < choices.len() implies (#[trigger] choices[k]).canonical() by {}
}

/// A key to which two runs lead one after the other.
pub proof fn way_parts(key: Seq<Nibble>, way: Seq<Nibble>, run: Seq<Nibble>)
    requires
        nibble::stands_at(key, 0, way + run),
    ensures
        nibble::stands_at(key, 0, way),
        nibble::stands_at(key, way.len() as int, run),
{
    stands_at_joined(key, 0, way, run);
}

/// Keys to which the same nibbles lead are the same if they are the same from there on.
pub proof fn same_rest_after(a: Seq<Nibble>, b: Seq<Nibble>, way: Seq<Nibble>)
    requires
        nibble::stands_at(a, 0, way),
        nibble::stands_at(b, 0, way),
    ensures
        tree::same_rest(a, b, way.len() as int) <==> a == b,
{
    same_rest_pointwise(a, b, way.len() as int);
    stands_at_pointwise(a, 0, way);
    stands_at_pointwise(b, 0, way);
    if tree::same_rest(a, b, way.len() as int) {
        assert forall|i: int| 0 <= i < a.len() implies a[i] == b[i] by {
            if i < way.len() {
                assert(a[i] == way[i - 0]);
                assert(b[i] == way[i - 0]);
            }
        }
        assert(a =~= b);
    }
}

} // verus!
