//! What encodings tell: they can be read back, and what is hashed depends on every part of a node.

use crate::trie::facts;
use crate::trie::hash_laws;
use crate::trie::hashing;
use crate::trie::hashing::HashView;
use crate::trie::nibble;
use crate::trie::nibble::Nibble;
use crate::trie::rlp;
use crate::trie::rlp::PathKind;
use crate::trie::tree;
use crate::trie::tree::Tree;
use vstd::prelude::*;

verus! {

/// The number that bytes make, the most significant first.
pub open spec fn number(bytes: Seq<u8>) -> nat
    decreases bytes.len(),
{
    if bytes.len() == 0 {
        0
    } else {
        256 * number(bytes.drop_last()) + bytes.last() as nat
    }
}

/// How many bytes an item's header has, told by its first byte.
pub open spec fn head(item: Seq<u8>) -> int {
    let first = item[0] as int;
    if first < 0x80 {
        0
    } else if first <= 0xb7 {
        1
    } else if first < 0xc0 {
        1 + first - 0xb7
    } else if first <= 0xf7 {
        1
    } else {
        1 + first - 0xf7
    }
}

/// How many bytes an item has after its header, told by its header.
pub open spec fn size(item: Seq<u8>) -> int {
    let first = item[0] as int;
    if first < 0x80 {
        1
    } else if first <= 0xb7 {
        first - 0x80
    } else if first < 0xc0 {
        number(item.subrange(1, 1 + first - 0xb7)) as int
    } else if first <= 0xf7 {
        first - 0xc0
    } else {
        number(item.subrange(1, 1 + first - 0xf7)) as int
    }
}

/// Whether `item` is one item, a string or a list, of a length that its header can tell.
pub open spec fn is_item(item: Seq<u8>) -> bool {
    ||| exists|bytes: Seq<u8>| bytes.len() <= u64::MAX && item == #[trigger] rlp::rlp_string(bytes)
    ||| exists|payload: Seq<u8>|
        payload.len() <= u64::MAX && item == #[trigger] rlp::rlp_list(payload)
}

/// Big-endian bytes make the number that they were made of.
proof fn number_read_back(n: nat)
    ensures
        number(rlp::be_bytes(n)) == n,
    decreases n,
{
    if n > 0 {
        number_read_back(n / 256);
        assert(rlp::be_bytes(n).drop_last() =~= rlp::be_bytes(n / 256));
    }
}

/// A string's header tells that it is a string, where its bytes start and how many they are,
/// whatever follows.
pub proof fn string_read_back(bytes: Seq<u8>, rest: Seq<u8>)
    requires
        bytes.len() <= u64::MAX,
    ensures
        ({
            let all = rlp::rlp_string(bytes) + rest;
            &&& all[0] < 0xc0
            &&& size(all) == bytes.len()
            &&& rlp::rlp_string(bytes).len() == head(all) + size(all)
            &&& all.subrange(head(all), head(all) + size(all)) == bytes
            &&& all.skip(head(all) + size(all)) == rest
        }),
{
    let item = rlp::rlp_string(bytes);
    let all = item + rest;
    if bytes.len() == 1 && bytes[0] < 128 {
        assert(all.subrange(0, 1) =~= bytes);
        assert(all.skip(1) =~= rest);
    } else if bytes.len() < 56 {
        assert(item =~= seq![(0x80 + bytes.len()) as u8] + bytes);
        assert(all.subrange(1, 1 + bytes.len() as int) =~= bytes);
        assert(all.skip(1 + bytes.len() as int) =~= rest);
    } else {
        let count = rlp::be_bytes(bytes.len());
        let k = count.len() as int;
        rlp::be_bytes_short(bytes.len());
        number_read_back(bytes.len());
        assert(item =~= seq![(0x80 + 55 + k) as u8] + count + bytes);
        assert(all[0] == 0xb7 + k);
        assert(all.subrange(1, 1 + k) =~= count);
        assert(all.subrange(1 + k, 1 + k + bytes.len()) =~= bytes);
        assert(all.skip(1 + k + bytes.len()) =~= rest);
    }
}

/// A list's header tells that it is a list, where its items start and how many bytes they have,
/// whatever follows.
pub proof fn list_read_back(payload: Seq<u8>, rest: Seq<u8>)
    requires
        payload.len() <= u64::MAX,
    ensures
        ({
            let all = rlp::rlp_list(payload) + rest;
            &&& all[0] >= 0xc0
            &&& size(all) == payload.len()
            &&& rlp::rlp_list(payload).len() == head(all) + size(all)
            &&& all.subrange(head(all), head(all) + size(all)) == payload
            &&& all.skip(head(all) + size(all)) == rest
        }),
{
    let item = rlp::rlp_list(payload);
    let all = item + rest;
    if payload.len() < 56 {
        assert(item =~= seq![(0xc0 + payload.len()) as u8] + payload);
        assert(all.subrange(1, 1 + payload.len() as int) =~= payload);
        assert(all.skip(1 + payload.len() as int) =~= rest);
    } else {
        let count = rlp::be_bytes(payload.len());
        let k = count.len() as int;
        rlp::be_bytes_short(payload.len());
        number_read_back(payload.len());
        assert(item =~= seq![(0xc0 + 55 + k) as u8] + count + payload);
        assert(all[0] == 0xf7 + k);
        assert(all.subrange(1, 1 + k) =~= count);
        assert(all.subrange(1 + k, 1 + k + payload.len()) =~= payload);
        assert(all.skip(1 + k + payload.len()) =~= rest);
    }
}

/// Headers are as short as they can be: none for a byte that is below 128, one byte up to 55
/// bytes, and no leading zero in a length.
pub proof fn headers_are_short(bytes: Seq<u8>)
    requires
        bytes.len() <= u64::MAX,
    ensures
        bytes.len() == 1 && bytes[0] < 0x80 ==> rlp::rlp_string(bytes).len() == 1,
        !(bytes.len() == 1 && bytes[0] < 0x80) && bytes.len() <= 55 ==> rlp::rlp_string(bytes).len()
            == bytes.len() + 1,
        bytes.len() <= 55 ==> rlp::rlp_list(bytes).len() == bytes.len() + 1,
        bytes.len() > 55 ==> {
            &&& rlp::rlp_string(bytes)[1] != 0
            &&& rlp::rlp_list(bytes)[1] != 0
        },
{
    if bytes.len() > 55 {
        rlp::be_bytes_short(bytes.len());
    }
}

/// Where one item ends and the next starts can be told.
pub proof fn items_part(a: Seq<u8>, x: Seq<u8>, b: Seq<u8>, y: Seq<u8>)
    requires
        is_item(a),
        is_item(b),
        a + x == b + y,
    ensures
        a == b,
        x == y,
{
    item_ends(a, x);
    item_ends(b, y);
    assert((a + x).take(a.len() as int) =~= a);
    assert((b + y).take(b.len() as int) =~= b);
    assert((a + x).skip(a.len() as int) =~= x);
    assert((b + y).skip(b.len() as int) =~= y);
}

/// An item's header tells its length, whatever follows.
proof fn item_ends(item: Seq<u8>, rest: Seq<u8>)
    requires
        is_item(item),
    ensures
        item.len() == head(item + rest) + size(item + rest),
{
    if exists|bytes: Seq<u8>| bytes.len() <= u64::MAX && item == #[trigger] rlp::rlp_string(bytes) {
        let bytes = choose|bytes: Seq<u8>|
            bytes.len() <= u64::MAX && item == #[trigger] rlp::rlp_string(bytes);
        string_read_back(bytes, rest);
    } else {
        let payload = choose|payload: Seq<u8>|
            payload.len() <= u64::MAX && item == #[trigger] rlp::rlp_list(payload);
        list_read_back(payload, rest);
    }
}

/// Different strings have different encodings.
pub proof fn strings_differ(a: Seq<u8>, b: Seq<u8>)
    requires
        a.len() <= u64::MAX,
        b.len() <= u64::MAX,
        rlp::rlp_string(a) == rlp::rlp_string(b),
    ensures
        a == b,
{
    string_read_back(a, Seq::empty());
    string_read_back(b, Seq::empty());
}

/// Different payloads make different lists.
pub proof fn lists_differ(a: Seq<u8>, b: Seq<u8>)
    requires
        a.len() <= u64::MAX,
        b.len() <= u64::MAX,
        rlp::rlp_list(a) == rlp::rlp_list(b),
    ensures
        a == b,
{
    list_read_back(a, Seq::empty());
    list_read_back(b, Seq::empty());
}

/// As many items one after the other are told apart.
pub proof fn items_differ(a: Seq<Seq<u8>>, b: Seq<Seq<u8>>)
    requires
        a.len() == b.len(),
        forall|i: int| 0 <= i < a.len() ==> is_item(#[trigger] a[i]),
        forall|i: int| 0 <= i < b.len() ==> is_item(#[trigger] b[i]),
        a.flatten() == b.flatten(),
    ensures
        a == b,
    decreases a.len(),
{
    if a.len() > 0 {
        items_part(
            a.first(),
            a.drop_first().flatten(),
            b.first(),
            b.drop_first().flatten(),
        );
        let (c, d) = (a.drop_first(), b.drop_first());
        assert forall|i: int| 0 <= i < c.len() implies is_item(#[trigger] c[i]) by {
            assert(c[i] == a[i + 1]);
        }
        assert forall|i: int| 0 <= i < d.len() implies is_item(#[trigger] d[i]) by {
            assert(d[i] == b[i + 1]);
        }
        items_differ(c, d);
        assert forall|i: int| 0 <= i < a.len() implies a[i] == b[i] by {
            if i > 0 {
                assert(c[i - 1] == a[i] && d[i - 1] == b[i]);
            }
        }
    }
    assert(a =~= b);
}

/// The nibbles of an encoded path are its kind and whether its length is odd, then a zero if it is
/// not, then the path.
pub proof fn path_read_back(run: Seq<Nibble>, kind: PathKind)
    ensures
        nibble::nibbles(rlp::hex_prefix(run, kind)) == (match (kind, run.len() % 2 == 1) {
            (PathKind::Extension, false) => seq![Nibble::V0, Nibble::V0],
            (PathKind::Extension, true) => seq![Nibble::V1],
            (PathKind::Leaf, false) => seq![Nibble::V2, Nibble::V0],
            (PathKind::Leaf, true) => seq![Nibble::V3],
        }) + run,
{
    let encoded = rlp::hex_prefix(run, kind);
    let got = nibble::nibbles(encoded);
    if run.len() % 2 == 1 {
        let body = run.skip(1);
        let flag = match kind {
            PathKind::Extension => Nibble::V1,
            PathKind::Leaf => Nibble::V3,
        };
        assert(flag.value() == 1 || flag.value() == 3);
        facts::value_range(run[0]);
        byte_read_back(encoded, 0, flag, run[0]);
        packed_read_back(encoded[0], body);
        assert(encoded =~= seq![encoded[0]] + rlp::packed(body));
        assert(got =~= seq![flag] + run) by {
            assert forall|i: int| 0 <= i < got.len() implies got[i] == (seq![flag] + run)[i] by {
                if i >= 2 {
                    assert(got[i] == body[i - 2]);
                }
            }
        }
    } else {
        let flag = match kind {
            PathKind::Extension => Nibble::V0,
            PathKind::Leaf => Nibble::V2,
        };
        assert(flag.value() == 0 || flag.value() == 2);
        byte_read_back(encoded, 0, flag, Nibble::V0);
        packed_read_back(encoded[0], run);
        assert(encoded =~= seq![encoded[0]] + rlp::packed(run));
        assert(got =~= seq![flag, Nibble::V0] + run) by {
            assert forall|i: int| 0 <= i < got.len() implies got[i] == (seq![flag, Nibble::V0]
                + run)[i] by {
                if i >= 2 {
                    assert(got[i] == run[i - 2]);
                }
            }
        }
    }
}

/// The nibbles of a byte are those that it was made of.
proof fn byte_read_back(bytes: Seq<u8>, i: int, high: Nibble, low: Nibble)
    requires
        0 <= i < bytes.len(),
        bytes[i] == 16 * high.value() + low.value(),
    ensures
        nibble::nibbles(bytes)[2 * i] == high,
        nibble::nibbles(bytes)[2 * i + 1] == low,
{
    let got = nibble::nibbles(bytes);
    nibble::nibbles_make_bytes(bytes, i);
    facts::value_range(got[2 * i]);
    facts::value_range(got[2 * i + 1]);
    facts::value_range(high);
    facts::value_range(low);
    facts::value_injective(got[2 * i], high);
    facts::value_injective(got[2 * i + 1], low);
}

/// The nibbles of packed bytes are those that were packed.
proof fn packed_read_back(first: u8, body: Seq<Nibble>)
    requires
        body.len() % 2 == 0,
    ensures
        ({
            let got = nibble::nibbles(seq![first] + rlp::packed(body));
            &&& got.len() == body.len() + 2
            &&& forall|i: int| 2 <= i < got.len() ==> #[trigger] got[i] == body[i - 2]
        }),
{
    let bytes = seq![first] + rlp::packed(body);
    let got = nibble::nibbles(bytes);
    assert forall|i: int| 2 <= i < got.len() implies #[trigger] got[i] == body[i - 2] by {
        let b = i / 2;
        let j = b - 1;
        let (high, low) = (body[2 * j], body[2 * j + 1]);
        facts::value_range(high);
        facts::value_range(low);
        assert(bytes[b] == rlp::packed(body)[j]);
        byte_read_back(bytes, b, high, low);
        if i % 2 == 0 {
            assert(i == 2 * b);
        } else {
            assert(i == 2 * b + 1);
        }
    }
}

/// Different paths, and paths of different kinds of nodes, have different encodings.
pub proof fn paths_differ(a: Seq<Nibble>, k: PathKind, b: Seq<Nibble>, l: PathKind)
    requires
        rlp::hex_prefix(a, k) == rlp::hex_prefix(b, l),
    ensures
        a == b,
        k == l,
{
    path_front(a, k);
    path_front(b, l);
}

/// The first nibble of an encoded path tells its kind, and where it starts.
proof fn path_front(run: Seq<Nibble>, kind: PathKind)
    ensures
        ({
            let got = nibble::nibbles(rlp::hex_prefix(run, kind));
            let flag = got[0].value();
            &&& flag == (if kind == PathKind::Leaf {
                2int
            } else {
                0int
            }) + run.len() % 2
            &&& run == got.skip(
                if flag % 2 == 1 {
                    1
                } else {
                    2
                },
            )
        }),
{
    path_read_back(run, kind);
    let got = nibble::nibbles(rlp::hex_prefix(run, kind));
    match (kind, run.len() % 2 == 1) {
        (PathKind::Extension, false) => {
            assert(got[0] == Nibble::V0);
            assert(got.skip(2) =~= run);
        },
        (PathKind::Extension, true) => {
            assert(got[0] == Nibble::V1);
            assert(got.skip(1) =~= run);
        },
        (PathKind::Leaf, false) => {
            assert(got[0] == Nibble::V2);
            assert(got.skip(2) =~= run);
        },
        (PathKind::Leaf, true) => {
            assert(got[0] == Nibble::V3);
            assert(got.skip(1) =~= run);
        },
    }
}

/// A short encoding stands for itself, and a long one is told by its digest. In a parent an
/// encoding stands as it is, and a digest as a string.
pub proof fn what_stands_for_an_encoding(encoded: Seq<u8>)
    ensures
        encoded.len() < 32 ==> {
            &&& HashView::of(encoded) == HashView::Inline(encoded)
            &&& HashView::of(encoded).bytes() == encoded
            &&& HashView::of(encoded).item() == encoded
        },
        encoded.len() >= 32 ==> {
            &&& HashView::of(encoded) == HashView::Hashed(hashing::keccak256(encoded))
            &&& HashView::of(encoded).bytes() == hashing::keccak256(encoded)
            &&& HashView::of(encoded).item() == rlp::rlp_string(hashing::keccak256(encoded))
        },
{
}

/// What stands for a node is bytes, an encoding's or a digest's.
pub proof fn what_stands_is_bytes(bytes: Seq<u8>)
    ensures
        HashView::Inline(bytes).bytes() == bytes,
        HashView::Hashed(bytes).bytes() == bytes,
        HashView::Inline(bytes).item() == bytes,
        HashView::Hashed(bytes).item() == rlp::rlp_string(bytes),
{
}

/// The encodings of two lists of as many items are equal only if the items are.
pub proof fn encodings_differ(a: Seq<Seq<u8>>, b: Seq<Seq<u8>>)
    requires
        a.len() == b.len(),
        forall|i: int| 0 <= i < a.len() ==> is_item(#[trigger] a[i]),
        forall|i: int| 0 <= i < b.len() ==> is_item(#[trigger] b[i]),
        a.flatten().len() <= u64::MAX,
        b.flatten().len() <= u64::MAX,
        rlp::rlp_list(a.flatten()) == rlp::rlp_list(b.flatten()),
    ensures
        a == b,
{
    lists_differ(a.flatten(), b.flatten());
    items_differ(a, b);
}

/// Two items one after the other.
proof fn two_items(a: Seq<u8>, b: Seq<u8>)
    ensures
        seq![a, b].flatten() == a + b,
{
    let all = seq![a, b];
    assert(all.drop_first() =~= seq![b]);
    assert(seq![b].drop_first() =~= Seq::<Seq<u8>>::empty());
    reveal_with_fuel(Seq::<_>::flatten, 3);
    assert(all.flatten() =~= a + b);
}

/// The encoding of an extension is a list of two items, its path and what stands for its child,
/// for every prefix and every child.
pub proof fn extension_is_two_items(prefix: Seq<Nibble>, child: HashView)
    ensures
        tree::extension_hash(prefix, child) == HashView::of(
            rlp::rlp_list(
                seq![
                    rlp::rlp_string(rlp::hex_prefix(prefix, PathKind::Extension)),
                    child.item(),
                ].flatten(),
            ),
        ),
{
    two_items(rlp::rlp_string(rlp::hex_prefix(prefix, PathKind::Extension)), child.item());
}

/// The encoding of an extension tells its prefix and what stands for its child.
pub proof fn extensions_differ(p: Seq<Nibble>, c: Seq<u8>, q: Seq<Nibble>, d: Seq<u8>)
    requires
        ({
            let a = seq![rlp::rlp_string(rlp::hex_prefix(p, PathKind::Extension)), c];
            let b = seq![rlp::rlp_string(rlp::hex_prefix(q, PathKind::Extension)), d];
            &&& rlp::rlp_list(a.flatten()) == rlp::rlp_list(b.flatten())
            &&& a.flatten().len() <= u64::MAX
            &&& b.flatten().len() <= u64::MAX
        }),
    ensures
        p == q,
        c == d,
{
    let (x, y) = (
        rlp::hex_prefix(p, PathKind::Extension),
        rlp::hex_prefix(q, PathKind::Extension),
    );
    two_items(rlp::rlp_string(x), c);
    two_items(rlp::rlp_string(y), d);
    lists_differ(rlp::rlp_string(x) + c, rlp::rlp_string(y) + d);
    assert(x.len() <= rlp::rlp_string(x).len() && y.len() <= rlp::rlp_string(y).len());
    items_part(rlp::rlp_string(x), c, rlp::rlp_string(y), d);
    strings_differ(x, y);
    paths_differ(p, PathKind::Extension, q, PathKind::Extension);
}

/// What stands for two extensions, if it is their encodings, is the same only if they have the
/// same prefix and the same stands for their children.
pub proof fn short_extensions_differ(
    p: Seq<Nibble>,
    c: HashView,
    q: Seq<Nibble>,
    d: HashView,
)
    requires
        tree::extension_hash(p, c) == tree::extension_hash(q, d),
        tree::extension_hash(p, c) is Inline,
    ensures
        p == q,
        c.item() == d.item(),
{
    let a = rlp::rlp_string(rlp::hex_prefix(p, PathKind::Extension)) + c.item();
    let b = rlp::rlp_string(rlp::hex_prefix(q, PathKind::Extension)) + d.item();
    extension_is_two_items(p, c);
    extension_is_two_items(q, d);
    two_items(rlp::rlp_string(rlp::hex_prefix(p, PathKind::Extension)), c.item());
    two_items(rlp::rlp_string(rlp::hex_prefix(q, PathKind::Extension)), d.item());
    assert(a.len() <= rlp::rlp_list(a).len() && b.len() <= rlp::rlp_list(b).len());
    extensions_differ(p, c.item(), q, d.item());
}

/// What stands for an extension without a note is made of its prefix and of what stands for its
/// child, behind the prefix.
pub proof fn extension_hash_of_parts(t: Tree, at: int)
    requires
        t is Extension,
    ensures
        t matches Tree::Extension { hash: None, prefix, child } ==> t.hashed(at) == HashView::of(
            rlp::rlp_list(
                seq![
                    rlp::rlp_string(rlp::hex_prefix(prefix, PathKind::Extension)),
                    child.hashed(at + prefix.len()).item(),
                ].flatten(),
            ),
        ),
        t matches Tree::Extension { hash: Some(known), .. } ==> t.hashed(at) == known,
{
    if let Tree::Extension { prefix, child, .. } = t {
        extension_is_two_items(prefix, child.hashed(at + prefix.len()));
    }
}

/// What stands for a leaf without a note is made of what is left of its key, and of its value.
pub proof fn leaf_hash_of_parts(t: Tree, at: int)
    requires
        t matches Tree::Leaf { path, .. } && 0 <= at <= 2 * path.len(),
    ensures
        t matches Tree::Leaf { hash: None, path, value } ==> t.hashed(at) == HashView::of(
            rlp::rlp_list(
                seq![
                    rlp::rlp_string(
                        rlp::hex_prefix(nibble::nibbles(path).skip(at), PathKind::Leaf),
                    ),
                    rlp::rlp_string(value),
                ].flatten(),
            ),
        ),
        t matches Tree::Leaf { hash: Some(known), .. } ==> t.hashed(at) == known,
{
    if let Tree::Leaf { path, value, .. } = t {
        two_items(
            rlp::rlp_string(rlp::hex_prefix(nibble::nibbles(path).skip(at), PathKind::Leaf)),
            rlp::rlp_string(value),
        );
    }
}

/// What stands for a branch without a note is made of seventeen items: for each choice the item
/// that stands for the node there, which is the empty string where there is none, and the value.
pub proof fn branch_hash_of_parts(t: Tree, at: int)
    requires
        t matches Tree::Branch { choices, .. } && choices.len() == 16,
    ensures
        t matches Tree::Branch { hash: None, choices, value, .. } ==> t.hashed(at) == HashView::of(
            rlp::rlp_list(
                Seq::new(
                    17,
                    |i: int|
                        if i < 16 {
                            choices[i].hashed(at + 1).item()
                        } else if let Some(v) = value {
                            rlp::rlp_string(v)
                        } else {
                            seq![0x80u8]
                        },
                ).flatten(),
            ),
        ),
        t matches Tree::Branch { hash: Some(known), .. } ==> t.hashed(at) == known,
        Tree::Empty.hashed(at + 1).item() == seq![0x80u8],
{
    assert(rlp::rlp_string(Seq::empty()) =~= seq![0x80u8]);
    if let Tree::Branch { hash: None, choices, value, .. } = t {
        let items = Seq::new(
            17,
            |i: int|
                if i < 16 {
                    choices[i].hashed(at + 1).item()
                } else if let Some(v) = value {
                    rlp::rlp_string(v)
                } else {
                    seq![0x80u8]
                },
        );
        payload_is_items(choices, at + 1, items, 16);
        assert(items =~= items.take(16).push(items[16]));
        items.take(16).lemma_flatten_push(items[16]);
    }
}

/// The items of the first choices, one after the other.
proof fn payload_is_items(choices: Seq<Tree>, at: int, items: Seq<Seq<u8>>, count: nat)
    requires
        count <= choices.len(),
        count <= items.len(),
        forall|i: int| 0 <= i < count ==> #[trigger] items[i] == choices[i].hashed(at).item(),
    ensures
        tree::choices_payload(choices, at, count) == items.take(count as int).flatten(),
    decreases count,
{
    if count == 0 {
        assert(items.take(0) =~= Seq::<Seq<u8>>::empty());
    } else {
        payload_is_items(choices, at, items, (count - 1) as nat);
        let before = items.take(count - 1);
        assert(items.take(count as int) =~= before.push(items[count - 1]));
        before.lemma_flatten_push(items[count - 1]);
    }
}

/// The encoding of a branch tells what stands for each of its choices, and its value.
pub proof fn branches_differ(a: Seq<Seq<u8>>, v: Seq<u8>, b: Seq<Seq<u8>>, w: Seq<u8>)
    requires
        a.len() == 16,
        b.len() == 16,
        forall|i: int| 0 <= i < 16 ==> is_item(#[trigger] a[i]),
        forall|i: int| 0 <= i < 16 ==> is_item(#[trigger] b[i]),
        a.push(rlp::rlp_string(v)).flatten().len() <= u64::MAX,
        b.push(rlp::rlp_string(w)).flatten().len() <= u64::MAX,
        rlp::rlp_list(a.push(rlp::rlp_string(v)).flatten()) == rlp::rlp_list(
            b.push(rlp::rlp_string(w)).flatten(),
        ),
    ensures
        a == b,
        v == w,
{
    let (c, d) = (a.push(rlp::rlp_string(v)), b.push(rlp::rlp_string(w)));
    a.lemma_flatten_push(rlp::rlp_string(v));
    b.lemma_flatten_push(rlp::rlp_string(w));
    assert(v.len() <= rlp::rlp_string(v).len() && w.len() <= rlp::rlp_string(w).len());
    assert forall|i: int| 0 <= i < c.len() implies is_item(#[trigger] c[i]) by {
        if i < 16 {
            assert(c[i] == a[i]);
        }
    }
    assert forall|i: int| 0 <= i < d.len() implies is_item(#[trigger] d[i]) by {
        if i < 16 {
            assert(d[i] == b[i]);
        }
    }
    encodings_differ(c, d);
    assert(a =~= c.take(16) && b =~= d.take(16));
    assert(c[16] == d[16]);
    strings_differ(v, w);
}

/// What stands for a trie with right notes is one item in its parent: its encoding, or its digest,
/// if that can be told.
pub proof fn stands_as_item(t: Tree, at: int)
    requires
        t.coherent(at),
        t.hashed(at) matches HashView::Hashed(digest) ==> digest.len() <= u64::MAX,
    ensures
        is_item(t.hashed(at).item()),
{
    hash_laws::notes_do_not_matter(t, at);
    let bare = t.bare();
    match bare.hashed(at) {
        HashView::Hashed(digest) => {
            assert(t.hashed(at).item() == rlp::rlp_string(digest));
        },
        HashView::Inline(encoded) => {
            match bare {
                Tree::Empty => {
                    assert(encoded == rlp::rlp_string(Seq::empty()));
                },
                Tree::Leaf { path, value, .. } => {
                    let payload = rlp::rlp_string(
                        rlp::hex_prefix(tree::rest(nibble::nibbles(path), at), PathKind::Leaf),
                    ) + rlp::rlp_string(value);
                    assert(encoded == rlp::rlp_list(payload));
                    assert(payload.len() <= encoded.len());
                },
                Tree::Extension { prefix, child, .. } => {
                    let payload = rlp::rlp_string(rlp::hex_prefix(prefix, PathKind::Extension))
                        + child.hashed(at + prefix.len()).item();
                    assert(encoded == rlp::rlp_list(payload));
                    assert(payload.len() <= encoded.len());
                },
                Tree::Branch { choices, value, .. } => {
                    let payload = tree::choices_payload(choices, at + 1, choices.len())
                        + rlp::rlp_string(
                        match value {
                            Some(v) => v,
                            None => Seq::empty(),
                        },
                    );
                    assert(encoded == rlp::rlp_list(payload));
                    assert(payload.len() <= encoded.len());
                },
            }
        },
    }
}

} // verus!
