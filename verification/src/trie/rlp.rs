//! Recursive-length-prefix encoding and hex-prefix encoding of paths.

use crate::trie::nibble::Nibble;
use vstd::prelude::*;

verus! {

/// What kind of node a path belongs to.
#[derive(Clone, Copy, Debug, PartialEq, Eq, Structural)]
pub enum PathKind {
    Extension,
    Leaf,
}

/// The big-endian bytes of `n`, without leading zeros.
pub open spec fn be_bytes(n: nat) -> Seq<u8>
    decreases n,
{
    if n == 0 {
        Seq::empty()
    } else {
        be_bytes(n / 256).push((n % 256) as u8)
    }
}

/// The header of an item of `len` bytes whose short form starts at `base`.
pub open spec fn rlp_header(base: int, len: nat) -> Seq<u8> {
    if len < 56 {
        seq![(base + len) as u8]
    } else {
        seq![(base + 55 + be_bytes(len).len()) as u8] + be_bytes(len)
    }
}

/// The encoding of a byte string: a byte below 128 stands for itself, all else has a header.
pub open spec fn rlp_string(bytes: Seq<u8>) -> Seq<u8> {
    if bytes.len() == 1 && bytes[0] < 128 {
        bytes
    } else {
        rlp_header(0x80, bytes.len()) + bytes
    }
}

/// The encoding of a list whose encoded items, one after the other, are `payload`.
pub open spec fn rlp_list(payload: Seq<u8>) -> Seq<u8> {
    rlp_header(0xC0, payload.len()) + payload
}

/// The bytes that pairs of nibbles make.
pub open spec fn packed(run: Seq<Nibble>) -> Seq<u8> {
    Seq::new(
        run.len() / 2,
        |i: int| (16 * run[2 * i].value() + run[2 * i + 1].value()) as u8,
    )
}

/// The flag of a path that is extended to whole bytes: its kind, and whether its length is odd.
pub open spec fn path_flag(kind: PathKind, odd: bool) -> int {
    (match kind {
        PathKind::Extension => 0x00int,
        PathKind::Leaf => 0x20int,
    }) + (if odd {
        0x10int
    } else {
        0x00int
    })
}

/// The hex-prefix encoding of a path: the flag first, in one byte with the odd nibble if there
/// is one.
pub open spec fn hex_prefix(run: Seq<Nibble>, kind: PathKind) -> Seq<u8> {
    if run.len() % 2 == 0 {
        seq![path_flag(kind, false) as u8] + packed(run)
    } else {
        seq![(path_flag(kind, true) + run[0].value()) as u8] + packed(run.skip(1))
    }
}

/// A number below 2^64 has at most eight bytes.
proof fn be_bytes_bound(n: nat, limit: nat, count: nat)
    requires
        n < limit,
        limit == pow256(count),
    ensures
        be_bytes(n).len() <= count,
    decreases count,
{
    if n > 0 {
        assert(count > 0);
        let rest = pow256((count - 1) as nat);
        assert(limit == 256 * rest);
        be_bytes_bound(n / 256, rest, (count - 1) as nat);
    }
}

/// The length of an item that can be told has one to eight bytes, and does not start with a zero.
pub proof fn be_bytes_short(n: nat)
    requires
        0 < n <= u64::MAX,
    ensures
        1 <= be_bytes(n).len() <= 8,
        be_bytes(n)[0] != 0,
{
    reveal_with_fuel(pow256, 9);
    be_bytes_bound(n, pow256(8), 8);
    be_bytes_lead(n);
}

/// The big-endian bytes of a number do not start with a zero.
proof fn be_bytes_lead(n: nat)
    requires
        0 < n,
    ensures
        be_bytes(n).len() >= 1,
        be_bytes(n)[0] != 0,
    decreases n,
{
    if n / 256 > 0 {
        be_bytes_lead(n / 256);
    } else {
        assert(be_bytes(0) =~= Seq::<u8>::empty());
    }
}

spec fn pow256(count: nat) -> nat
    decreases count,
{
    if count == 0 {
        1
    } else {
        256 * pow256((count - 1) as nat)
    }
}

/// Appends the big-endian bytes of `n` to `out`.
fn write_be_bytes(out: &mut Vec<u8>, n: usize)
    ensures
        final(out)@ == old(out)@ + be_bytes(n as nat),
    decreases n,
{
    if n > 0 {
        write_be_bytes(out, n / 256);
        out.push((n % 256) as u8);
    }
    assert(out@ =~= old(out)@ + be_bytes(n as nat));
}

/// How many big-endian bytes `n` has.
fn be_len(n: usize) -> (count: u8)
    ensures
        count == be_bytes(n as nat).len(),
        count <= 8,
{
    proof {
        reveal_with_fuel(pow256, 9);
        be_bytes_bound(n as nat, pow256(8), 8);
    }
    be_len_within(n, 8)
}

fn be_len_within(n: usize, limit: u8) -> (count: u8)
    requires
        be_bytes(n as nat).len() <= limit,
    ensures
        count == be_bytes(n as nat).len(),
    decreases limit,
{
    if n == 0 {
        0
    } else {
        assert(be_bytes(n as nat).len() == be_bytes(n as nat / 256).len() + 1);
        be_len_within(n / 256, limit - 1) + 1
    }
}

/// Appends to `out` the header of an item of `len` bytes whose short form starts at `base`.
pub fn write_header(out: &mut Vec<u8>, base: u8, len: usize)
    requires
        base <= 0xC0,
    ensures
        final(out)@ == old(out)@ + rlp_header(base as int, len as nat),
{
    if len < 56 {
        out.push(base + len as u8);
    } else {
        out.push(base + 55 + be_len(len));
        write_be_bytes(out, len);
    }
    assert(out@ =~= old(out)@ + rlp_header(base as int, len as nat));
}

/// The hex-prefix encoding of a path.
pub fn encode_path(run: &Vec<Nibble>, kind: PathKind) -> (encoded: Vec<u8>)
    ensures
        encoded@ == hex_prefix(run@, kind),
{
    let odd: bool = run.len() % 2 == 1;
    let mut flag: u8 = match kind {
        PathKind::Extension => 0x00,
        PathKind::Leaf => 0x20,
    };
    let mut next: usize = 0;
    if odd {
        flag = flag + 0x10 + run[0].as_u8();
        next = 1;
    }
    let ghost body = run@.skip(next as int);
    let mut encoded: Vec<u8> = Vec::new();
    encoded.push(flag);
    assert(encoded@ =~= seq![flag] + packed(body).take(0));
    let ghost start = next;
    while next < run.len()
        invariant
            start <= next <= run@.len(),
            (next - start) % 2 == 0,
            (run@.len() - next) % 2 == 0,
            body == run@.skip(start as int),
            encoded@ == seq![flag] + packed(body).take((next - start) / 2),
        decreases run@.len() - next,
    {
        let (high, low): (u8, u8) = (run[next].as_u8(), run[next + 1].as_u8());
        encoded.push(high * 16 + low);
        proof {
            let i = (next - start) / 2;
            assert(2 * i == next - start);
            assert(body[2 * i] == run@[next as int]);
            assert(body[2 * i + 1] == run@[next + 1]);
            assert(packed(body)[i] == (16 * high + low) as u8);
            assert(packed(body).take(i + 1) =~= packed(body).take(i).push(packed(body)[i]));
        }
        next = next + 2;
        assert(encoded@ =~= seq![flag] + packed(body).take((next - start) / 2));
    }
    assert(packed(body).take((run@.len() - start) / 2) =~= packed(body));
    if !odd {
        assert(run@.skip(0) =~= run@);
    }
    encoded
}

} // verus!
