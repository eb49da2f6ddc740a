//! Nibbles (half bytes), paths that are read nibble by nibble, and owned runs of nibbles.

use crate::trie::facts;
use crate::trie::tree;
use vstd::prelude::*;

verus! {

/// Half a byte.
#[derive(Clone, Copy, Debug, PartialEq, Eq, Structural)]
pub enum Nibble {
    V0,
    V1,
    V2,
    V3,
    V4,
    V5,
    V6,
    V7,
    V8,
    V9,
    V10,
    V11,
    V12,
    V13,
    V14,
    V15,
}

impl Nibble {
    /// The number that the nibble stands for.
    pub open spec fn value(self) -> int {
        match self {
            Nibble::V0 => 0,
            Nibble::V1 => 1,
            Nibble::V2 => 2,
            Nibble::V3 => 3,
            Nibble::V4 => 4,
            Nibble::V5 => 5,
            Nibble::V6 => 6,
            Nibble::V7 => 7,
            Nibble::V8 => 8,
            Nibble::V9 => 9,
            Nibble::V10 => 10,
            Nibble::V11 => 11,
            Nibble::V12 => 12,
            Nibble::V13 => 13,
            Nibble::V14 => 14,
            Nibble::V15 => 15,
        }
    }

    /// The nibble that stands for `value`.
    pub open spec fn of(value: int) -> Nibble
        recommends
            0 <= value < 16,
    {
        if value == 0 {
            Nibble::V0
        } else if value == 1 {
            Nibble::V1
        } else if value == 2 {
            Nibble::V2
        } else if value == 3 {
            Nibble::V3
        } else if value == 4 {
            Nibble::V4
        } else if value == 5 {
            Nibble::V5
        } else if value == 6 {
            Nibble::V6
        } else if value == 7 {
            Nibble::V7
        } else if value == 8 {
            Nibble::V8
        } else if value == 9 {
            Nibble::V9
        } else if value == 10 {
            Nibble::V10
        } else if value == 11 {
            Nibble::V11
        } else if value == 12 {
            Nibble::V12
        } else if value == 13 {
            Nibble::V13
        } else if value == 14 {
            Nibble::V14
        } else {
            Nibble::V15
        }
    }

    /// The number that the nibble stands for.
    pub fn as_u8(self) -> (value: u8)
        ensures
            value == self.value(),
            value < 16,
    {
        match self {
            Nibble::V0 => 0,
            Nibble::V1 => 1,
            Nibble::V2 => 2,
            Nibble::V3 => 3,
            Nibble::V4 => 4,
            Nibble::V5 => 5,
            Nibble::V6 => 6,
            Nibble::V7 => 7,
            Nibble::V8 => 8,
            Nibble::V9 => 9,
            Nibble::V10 => 10,
            Nibble::V11 => 11,
            Nibble::V12 => 12,
            Nibble::V13 => 13,
            Nibble::V14 => 14,
            Nibble::V15 => 15,
        }
    }

    /// The nibble that stands for `value`.
    pub fn from_u8(value: u8) -> (nibble: Nibble)
        requires
            value < 16,
        ensures
            nibble == Nibble::of(value as int),
            nibble.value() == value,
    {
        match value {
            0 => Nibble::V0,
            1 => Nibble::V1,
            2 => Nibble::V2,
            3 => Nibble::V3,
            4 => Nibble::V4,
            5 => Nibble::V5,
            6 => Nibble::V6,
            7 => Nibble::V7,
            8 => Nibble::V8,
            9 => Nibble::V9,
            10 => Nibble::V10,
            11 => Nibble::V11,
            12 => Nibble::V12,
            13 => Nibble::V13,
            14 => Nibble::V14,
            _ => Nibble::V15,
        }
    }
}

/// The nibbles of `bytes`, the high half of each byte first.
pub open spec fn nibbles(bytes: Seq<u8>) -> Seq<Nibble> {
    Seq::new(
        2 * bytes.len(),
        |i: int|
            if i % 2 == 0 {
                Nibble::of(bytes[i / 2] as int / 16)
            } else {
                Nibble::of(bytes[i / 2] as int % 16)
            },
    )
}

/// Whether `run` stands in `path` from position `at` on.
pub open spec fn stands_at(path: Seq<Nibble>, at: int, run: Seq<Nibble>) -> bool {
    &&& 0 <= at
    &&& at + run.len() <= path.len()
    &&& path.subrange(at, at + run.len()) == run
}

/// For how many steps `a` from position `i` on and `b` from position `j` on agree.
pub open spec fn agreement(a: Seq<Nibble>, i: int, b: Seq<Nibble>, j: int) -> nat
    decreases a.len() - i,
{
    if 0 <= i < a.len() && 0 <= j < b.len() && a[i] == b[j] {
        1 + agreement(a, i + 1, b, j + 1)
    } else {
        0
    }
}

/// The agreement is a run that both have in common, and it cannot be made longer.
pub proof fn agreement_is_longest(a: Seq<Nibble>, i: int, b: Seq<Nibble>, j: int)
    requires
        0 <= i <= a.len(),
        0 <= j <= b.len(),
    ensures
        i + agreement(a, i, b, j) <= a.len(),
        j + agreement(a, i, b, j) <= b.len(),
        forall|k: int| 0 <= k < agreement(a, i, b, j) ==> #[trigger] a[i + k] == b[j + k],
        ({
            let n = agreement(a, i, b, j);
            i + n < a.len() && j + n < b.len() ==> a[i + n as int] != b[j + n as int]
        }),
    decreases a.len() - i,
{
    if i < a.len() && j < b.len() && a[i] == b[j] {
        agreement_is_longest(a, i + 1, b, j + 1);
        let n = agreement(a, i, b, j);
        assert forall|k: int| 0 <= k < n implies #[trigger] a[i + k] == b[j + k] by {
            if k > 0 {
                assert(a[(i + 1) + (k - 1)] == b[(j + 1) + (k - 1)]);
            }
        }
        assert((i + 1) + agreement(a, i + 1, b, j + 1) == i + n);
    }
}

/// Each nibble stands for the number in its name.
pub proof fn nibble_numbers()
    ensures
        Nibble::V0.value() == 0,
        Nibble::V1.value() == 1,
        Nibble::V2.value() == 2,
        Nibble::V3.value() == 3,
        Nibble::V4.value() == 4,
        Nibble::V5.value() == 5,
        Nibble::V6.value() == 6,
        Nibble::V7.value() == 7,
        Nibble::V8.value() == 8,
        Nibble::V9.value() == 9,
        Nibble::V10.value() == 10,
        Nibble::V11.value() == 11,
        Nibble::V12.value() == 12,
        Nibble::V13.value() == 13,
        Nibble::V14.value() == 14,
        Nibble::V15.value() == 15,
{
}

/// The nibbles of a byte make the byte again, the high half first.
pub proof fn nibbles_make_bytes(bytes: Seq<u8>, i: int)
    requires
        0 <= i < bytes.len(),
    ensures
        nibbles(bytes).len() == 2 * bytes.len(),
        16 * nibbles(bytes)[2 * i].value() + nibbles(bytes)[2 * i + 1].value() == bytes[i],
{
    let (high, low) = (2 * i, 2 * i + 1);
    assert(high % 2 == 0 && low % 2 == 1 && high / 2 == i && low / 2 == i);
    assert(nibbles(bytes)[high] == Nibble::of(bytes[i] as int / 16));
    assert(nibbles(bytes)[low] == Nibble::of(bytes[i] as int % 16));
}

/// A path is read by the nibbles of its bytes, and every position up to their end can be reached.
pub proof fn path_reads_bytes(path: NibbleSlice<'_>)
    ensures
        path.full() == nibbles(path.bytes()),
        path.wf() <==> 2 * path.bytes().len() <= usize::MAX && path.at() <= 2 * path.bytes().len(),
{
}

/// Different byte strings have different nibbles.
pub proof fn nibbles_injective(a: Seq<u8>, b: Seq<u8>)
    requires
        nibbles(a) == nibbles(b),
    ensures
        a == b,
{
    assert(nibbles(a).len() == 2 * a.len() && nibbles(b).len() == 2 * b.len());
    assert forall|i: int| 0 <= i < a.len() implies a[i] == b[i] by {
        let (high, low) = (2 * i, 2 * i + 1);
        assert(high % 2 == 0 && low % 2 == 1 && high / 2 == i && low / 2 == i);
        assert(nibbles(a)[high] == Nibble::of(a[i] as int / 16));
        assert(nibbles(b)[high] == Nibble::of(b[i] as int / 16));
        assert(nibbles(a)[low] == Nibble::of(a[i] as int % 16));
        assert(nibbles(b)[low] == Nibble::of(b[i] as int % 16));
        nibble_of_injective(a[i] as int / 16, b[i] as int / 16);
        nibble_of_injective(a[i] as int % 16, b[i] as int % 16);
    }
    assert(a =~= b);
}

/// Different numbers below sixteen are different nibbles.
pub proof fn nibble_of_injective(a: int, b: int)
    requires
        0 <= a < 16,
        0 <= b < 16,
        Nibble::of(a) == Nibble::of(b),
    ensures
        a == b,
{
}

/// A path in bytes, read nibble by nibble from some offset on.
#[derive(Clone, Copy, Debug)]
pub struct NibbleSlice<'a> {
    data: &'a [u8],
    offset: usize,
}

impl<'a> NibbleSlice<'a> {
    /// The whole path in bytes, with what has been read already.
    pub closed spec fn bytes(self) -> Seq<u8> {
        self.data@
    }

    /// How many nibbles have been read.
    pub closed spec fn at(self) -> nat {
        self.offset as nat
    }

    /// The whole path in nibbles, with what has been read already.
    pub open spec fn full(self) -> Seq<Nibble> {
        nibbles(self.bytes())
    }

    /// The path's nibbles can be counted, and no more were read than there are.
    pub open spec fn wf(self) -> bool {
        &&& self.full().len() <= usize::MAX
        &&& self.at() <= self.full().len()
    }

    /// The path of all nibbles of `data`.
    pub fn new(data: &'a [u8]) -> (path: NibbleSlice<'a>)
        requires
            2 * data@.len() <= usize::MAX,
        ensures
            path.wf(),
            path.bytes() == data@,
            path.at() == 0,
    {
        NibbleSlice { data, offset: 0 }
    }

    /// How many nibbles have been read.
    pub fn offset(&self) -> (offset: usize)
        ensures
            offset == self.at(),
    {
        self.offset
    }

    /// The whole path in bytes, with what has been read already.
    pub fn data(&self) -> (data: Vec<u8>)
        ensures
            data@ == self.bytes(),
    {
        let mut data: Vec<u8> = Vec::new();
        data.extend_from_slice(self.data);
        assert(data@ =~= self.data@);
        data
    }

    /// The nibble at position `index` of the whole path.
    fn nibble_at(&self, index: usize) -> (nibble: Nibble)
        requires
            index < self.full().len(),
        ensures
            nibble == self.full()[index as int],
    {
        let byte: u8 = self.data[index / 2];
        if index % 2 == 0 {
            Nibble::from_u8(byte / 16)
        } else {
            Nibble::from_u8(byte % 16)
        }
    }

    /// The nibble that is read next, which stays unread.
    pub fn peek(&self) -> (nibble: Option<Nibble>)
        requires
            self.wf(),
        ensures
            nibble == (if self.at() < self.full().len() {
                Some(self.full()[self.at() as int])
            } else {
                None
            }),
    {
        if self.offset / 2 < self.data.len() {
            Some(self.nibble_at(self.offset))
        } else {
            None
        }
    }

    /// Reads one nibble, if any is left.
    pub fn next(&mut self) -> (nibble: Option<Nibble>)
        requires
            old(self).wf(),
        ensures
            final(self).wf(),
            final(self).bytes() == old(self).bytes(),
            old(self).at() < old(self).full().len() ==> {
                &&& nibble == Some(old(self).full()[old(self).at() as int])
                &&& final(self).at() == old(self).at() + 1
            },
            old(self).at() == old(self).full().len() ==> {
                &&& nibble is None
                &&& final(self).at() == old(self).at()
            },
    {
        let nibble = self.peek();
        if nibble.is_some() {
            self.offset = self.offset + 1;
        }
        nibble
    }

    /// Passes over `delta` nibbles.
    pub fn offset_add(&mut self, delta: usize)
        requires
            old(self).wf(),
            old(self).at() + delta <= old(self).full().len(),
        ensures
            final(self).wf(),
            final(self).bytes() == old(self).bytes(),
            final(self).at() == old(self).at() + delta,
    {
        self.offset = self.offset + delta;
    }

    /// Passes over `prefix` if it stands next in the path; leaves the path alone otherwise.
    pub fn skip_prefix(&mut self, prefix: &NibbleVec) -> (found: bool)
        requires
            old(self).wf(),
        ensures
            found == stands_at(old(self).full(), old(self).at() as int, prefix@),
            final(self).wf(),
            final(self).bytes() == old(self).bytes(),
            final(self).at() == old(self).at() + (if found {
                prefix@.len()
            } else {
                0
            }),
    {
        let count: usize = self.count_prefix_vec(prefix);
        proof {
            let (full, at) = (self.full(), self.at() as int);
            agreement_is_longest(full, at, prefix@, 0);
            if count == prefix@.len() {
                assert forall|k: int| 0 <= k < count implies full.subrange(at, at + count)[k]
                    == prefix@[k] by {
                    assert(full[at + k] == prefix@[0 + k]);
                }
                assert(full.subrange(at, at + count) =~= prefix@);
            } else if stands_at(full, at, prefix@) {
                assert(full.subrange(at, at + prefix@.len())[count as int] == full[at + count]);
            }
        }
        if count == prefix.len() {
            self.offset = self.offset + count;
            true
        } else {
            false
        }
    }

    /// For how many nibbles the rest of the path agrees with `other`.
    pub fn count_prefix_vec(&self, other: &NibbleVec) -> (count: usize)
        requires
            self.wf(),
        ensures
            count == agreement(self.full(), self.at() as int, other@, 0),
            self.at() + count <= self.full().len(),
            count <= other@.len(),
    {
        let mut rest: NibbleSlice<'a> = *self;
        let mut count: usize = 0;
        let ghost whole = agreement(self.full(), self.at() as int, other@, 0);
        loop
            invariant
                rest.wf(),
                rest.bytes() == self.bytes(),
                rest.at() == self.at() + count,
                count <= other@.len(),
                whole == count + agreement(rest.full(), rest.at() as int, other@, count as int),
            ensures
                whole == count,
                self.at() + count <= self.full().len(),
                count <= other@.len(),
            decreases other@.len() - count,
        {
            if count == other.len() {
                break;
            }
            match rest.peek() {
                None => {
                    break;
                },
                Some(nibble) => {
                    if nibble != other.data[count] {
                        break;
                    }
                    rest.offset_add(1);
                    count = count + 1;
                },
            }
        }
        count
    }

    /// For how many nibbles the rest of the path agrees with the rest of `other`.
    pub fn count_prefix_slice(&self, other: &NibbleSlice<'_>) -> (count: usize)
        requires
            self.wf(),
            other.wf(),
        ensures
            count == agreement(self.full(), self.at() as int, other.full(), other.at() as int),
            self.at() + count <= self.full().len(),
            other.at() + count <= other.full().len(),
    {
        let mut a: NibbleSlice<'a> = *self;
        let mut b: NibbleSlice<'_> = *other;
        let mut count: usize = 0;
        let ghost whole = agreement(
            self.full(),
            self.at() as int,
            other.full(),
            other.at() as int,
        );
        loop
            invariant
                a.wf(),
                b.wf(),
                a.bytes() == self.bytes(),
                b.bytes() == other.bytes(),
                a.at() == self.at() + count,
                b.at() == other.at() + count,
                whole == count + agreement(a.full(), a.at() as int, b.full(), b.at() as int),
            ensures
                whole == count,
                self.at() + count <= self.full().len(),
                other.at() + count <= other.full().len(),
            decreases a.full().len() - a.at(),
        {
            let (x, y): (Option<Nibble>, Option<Nibble>) = (a.peek(), b.peek());
            match (x, y) {
                (Some(m), Some(n)) => {
                    if m != n {
                        break;
                    }
                    a.offset_add(1);
                    b.offset_add(1);
                    count = count + 1;
                },
                _ => {
                    break;
                },
            }
        }
        count
    }

    /// Whether the unread rest of the path is what `other` has from the same position on.
    pub fn rest_is(&self, other: &[u8]) -> (same: bool)
        requires
            self.wf(),
        ensures
            same == tree::same_rest(nibbles(other@), self.full(), self.at() as int),
    {
        if other.len() != self.data.len() {
            return false;
        }
        let rest: NibbleSlice<'_> = NibbleSlice { data: other, offset: self.offset };
        let count: usize = self.count_prefix_slice(&rest);
        proof {
            let (a, b, at) = (self.full(), rest.full(), self.at() as int);
            agreement_is_longest(a, at, b, at);
            facts::same_rest_pointwise(b, a, at);
            if at + count == a.len() {
                assert forall|i: int| at <= i < b.len() implies b[i] == a[i] by {
                    assert(a[at + (i - at)] == b[at + (i - at)]);
                }
            }
        }
        count == 2 * self.data.len() - self.offset
    }

    /// The nibbles of the path that are still unread.
    pub fn rest(&self) -> (run: NibbleVec)
        requires
            self.wf(),
        ensures
            run@ == self.full().skip(self.at() as int),
    {
        let count: usize = 2 * self.data.len() - self.offset;
        assert(self.full().skip(self.at() as int) =~= self.full().subrange(
            self.at() as int,
            self.at() + count,
        ));
        self.split_to_vec(count)
    }

    /// The next `count` nibbles of the path.
    pub fn split_to_vec(&self, count: usize) -> (run: NibbleVec)
        requires
            self.wf(),
            self.at() + count <= self.full().len(),
        ensures
            run@ == self.full().subrange(self.at() as int, self.at() + count),
    {
        let mut run: NibbleVec = NibbleVec::new();
        let mut index: usize = 0;
        while index < count
            invariant
                self.wf(),
                index <= count,
                self.at() + count <= self.full().len(),
                run@ == self.full().subrange(self.at() as int, self.at() + index),
            decreases count - index,
        {
            run.push(self.nibble_at(self.offset + index));
            index = index + 1;
            assert(run@ =~= self.full().subrange(self.at() as int, self.at() + index));
        }
        run
    }
}

/// An owned run of nibbles.
#[derive(Debug)]
pub struct NibbleVec {
    data: Vec<Nibble>,
}

impl View for NibbleVec {
    type V = Seq<Nibble>;

    closed spec fn view(&self) -> Seq<Nibble> {
        self.data@
    }
}

impl Clone for NibbleVec {
    fn clone(&self) -> (copy: NibbleVec)
        ensures
            copy@ == self@,
    {
        let data: Vec<Nibble> = self.data.clone();
        assert(data@ =~= self.data@);
        NibbleVec { data }
    }
}

impl NibbleVec {
    /// The empty run.
    pub fn new() -> (run: NibbleVec)
        ensures
            run@ == Seq::<Nibble>::empty(),
    {
        NibbleVec { data: Vec::new() }
    }

    /// The run of the nibbles in `data`.
    pub fn from_nibbles(data: Vec<Nibble>) -> (run: NibbleVec)
        ensures
            run@ == data@,
    {
        NibbleVec { data }
    }

    /// The nibbles of the run.
    pub fn to_vec(&self) -> (data: Vec<Nibble>)
        ensures
            data@ == self@,
    {
        let data: Vec<Nibble> = self.data.clone();
        assert(data@ =~= self.data@);
        data
    }

    /// How many nibbles the run has.
    pub fn len(&self) -> (len: usize)
        ensures
            len == self@.len(),
    {
        self.data.len()
    }

    /// Whether the run has no nibble.
    pub fn is_empty(&self) -> (empty: bool)
        ensures
            empty == (self@.len() == 0),
    {
        self.data.len() == 0
    }

    /// Puts `nibble` at the end of the run.
    pub fn push(&mut self, nibble: Nibble)
        ensures
            final(self)@ == old(self)@.push(nibble),
    {
        self.data.push(nibble);
    }

    /// Puts the nibbles of `other` at the end of the run.
    pub fn extend(&mut self, other: &NibbleVec)
        ensures
            final(self)@ == old(self)@ + other@,
    {
        self.data.extend_from_slice(other.data.as_slice());
        assert(self.data@ =~= old(self).data@ + other.data@);
    }

    /// Parts the run at `index`: what stands before it, what stands there, what stands after.
    pub fn split_extract_at(self, index: usize) -> (parts: (NibbleVec, Nibble, NibbleVec))
        requires
            index < self@.len(),
        ensures
            parts.0@ == self@.take(index as int),
            parts.1 == self@[index as int],
            parts.2@ == self@.skip(index + 1),
    {
        let mut left: Vec<Nibble> = self.data;
        assert(index < left.len());
        let right: Vec<Nibble> = left.split_off(index + 1);
        let middle: Nibble = left[index];
        left.truncate(index);
        assert(left@ =~= self@.take(index as int));
        assert(right@ =~= self@.skip(index + 1));
        (NibbleVec { data: left }, middle, NibbleVec { data: right })
    }
}

} // verus!
