//! How a node is referred to by its parent: by its encoding if that is short, by the encoding's
//! hash otherwise.

use crate::trie::nibble::{Nibble, NibbleSlice, NibbleVec};
use crate::trie::rlp;
use crate::trie::rlp::{encode_path, write_header, PathKind};
use sha3::Digest;
use vstd::prelude::*;

verus! {

/// The Keccak-256 digest of `data`.
pub uninterp spec fn keccak256(data: Seq<u8>) -> Seq<u8>;

/// Calls `sha3::Keccak256::digest`. Its result is the Keccak-256 digest of `data`, which is a
/// function of `data` alone; nothing more is claimed of it.
#[verifier::external_body]
fn keccak256_digest(data: &[u8]) -> (digest: [u8; 32])
    ensures
        digest@ == keccak256(data@),
{
    sha3::Keccak256::digest(data).into()
}

/// What stands for a node in its parent.
pub enum HashView {
    /// The node's encoding itself.
    Inline(Seq<u8>),
    /// The hash of the node's encoding.
    Hashed(Seq<u8>),
}

impl HashView {
    /// The bytes, whichever they are.
    pub open spec fn bytes(self) -> Seq<u8> {
        match self {
            HashView::Inline(bytes) => bytes,
            HashView::Hashed(bytes) => bytes,
        }
    }

    /// The item that a parent's encoding holds: an encoding as it is, a hash as a string.
    pub open spec fn item(self) -> Seq<u8> {
        match self {
            HashView::Inline(bytes) => bytes,
            HashView::Hashed(bytes) => rlp::rlp_string(bytes),
        }
    }

    /// What stands for a node whose encoding is `encoded`.
    pub open spec fn of(encoded: Seq<u8>) -> HashView {
        if encoded.len() < 32 {
            HashView::Inline(encoded)
        } else {
            HashView::Hashed(keccak256(encoded))
        }
    }
}

/// What stands for a node in its parent.
#[derive(Debug)]
pub enum NodeHashRef {
    /// The node's encoding itself.
    Inline(Vec<u8>),
    /// The hash of the node's encoding.
    Hashed([u8; 32]),
}

impl View for NodeHashRef {
    type V = HashView;

    open spec fn view(&self) -> HashView {
        match *self {
            NodeHashRef::Inline(bytes) => HashView::Inline(bytes@),
            NodeHashRef::Hashed(bytes) => HashView::Hashed(bytes@),
        }
    }
}

impl Clone for NodeHashRef {
    fn clone(&self) -> (copy: NodeHashRef)
        ensures
            copy@ == self@,
    {
        match self {
            NodeHashRef::Inline(bytes) => {
                let copy: Vec<u8> = bytes.clone();
                assert(copy@ =~= bytes@);
                NodeHashRef::Inline(copy)
            },
            NodeHashRef::Hashed(bytes) => NodeHashRef::Hashed(*bytes),
        }
    }
}

impl NodeHashRef {
    /// The bytes, whichever they are.
    pub fn as_ref(&self) -> (bytes: &[u8])
        ensures
            bytes@ == self@.bytes(),
    {
        match self {
            NodeHashRef::Inline(bytes) => bytes.as_slice(),
            NodeHashRef::Hashed(bytes) => bytes.as_slice(),
        }
    }
}

/// A node's own note of what stands for it, as far as that has been computed.
#[derive(Debug)]
pub struct NodeHash {
    known: Option<NodeHashRef>,
}

impl View for NodeHash {
    type V = Option<HashView>;

    closed spec fn view(&self) -> Option<HashView> {
        match self.known {
            Some(hash) => Some(hash@),
            None => None,
        }
    }
}

impl Default for NodeHash {
    fn default() -> (hash: NodeHash)
        ensures
            hash@ is None,
    {
        NodeHash { known: None }
    }
}

impl Clone for NodeHash {
    fn clone(&self) -> (copy: NodeHash)
        ensures
            copy@ == self@,
    {
        NodeHash { known: self.extract_ref() }
    }
}

impl NodeHash {
    /// Forgets what was computed.
    pub fn mark_as_dirty(&mut self)
        ensures
            final(self)@ is None,
    {
        self.known = None;
    }

    /// What was computed, if anything was.
    pub fn extract_ref(&self) -> (hash: Option<NodeHashRef>)
        ensures
            hash is Some <==> self@ is Some,
            hash matches Some(h) ==> Some(h@) == self@,
    {
        match &self.known {
            Some(hash) => Some(hash.clone()),
            None => None,
        }
    }

    /// Notes what was computed.
    fn store(&mut self, hash: NodeHashRef)
        ensures
            final(self)@ == Some(hash@),
    {
        self.known = Some(hash);
    }
}

/// Gathers the items of a node's encoding.
#[derive(Debug)]
pub struct NodeHasher {
    payload: Vec<u8>,
}

impl View for NodeHasher {
    type V = Seq<u8>;

    closed spec fn view(&self) -> Seq<u8> {
        self.payload@
    }
}

impl NodeHasher {
    /// A hasher that holds no item.
    pub fn new() -> (hasher: NodeHasher)
        ensures
            hasher@ == Seq::<u8>::empty(),
    {
        NodeHasher { payload: Vec::new() }
    }

    /// Adds `bytes` as they are.
    pub fn write_raw(&mut self, bytes: &[u8])
        ensures
            final(self)@ == old(self)@ + bytes@,
    {
        self.payload.extend_from_slice(bytes);
        assert(self.payload@ =~= old(self).payload@ + bytes@);
    }

    /// Adds `bytes` as a string.
    pub fn write_bytes(&mut self, bytes: &[u8])
        ensures
            final(self)@ == old(self)@ + rlp::rlp_string(bytes@),
    {
        if !(bytes.len() == 1 && bytes[0] < 128) {
            write_header(&mut self.payload, 0x80, bytes.len());
        }
        self.write_raw(bytes);
        assert(self@ =~= old(self)@ + rlp::rlp_string(bytes@));
    }

    /// Adds what stands for a child.
    pub fn write_hash(&mut self, hash: &NodeHashRef)
        ensures
            final(self)@ == old(self)@ + hash@.item(),
    {
        match hash {
            NodeHashRef::Inline(bytes) => self.write_raw(bytes.as_slice()),
            NodeHashRef::Hashed(bytes) => self.write_bytes(bytes.as_slice()),
        }
    }

    /// Adds a run of nibbles as a node's path.
    pub fn write_path_vec(&mut self, run: &NibbleVec, kind: PathKind)
        ensures
            final(self)@ == old(self)@ + rlp::rlp_string(
                rlp::hex_prefix(run@, kind),
            ),
    {
        let nibbles: Vec<Nibble> = run.to_vec();
        let encoded: Vec<u8> = encode_path(&nibbles, kind);
        self.write_bytes(encoded.as_slice());
    }

    /// Adds the unread rest of `path` as a node's path.
    pub fn write_path_slice(&mut self, path: &NibbleSlice<'_>, kind: PathKind)
        requires
            path.wf(),
        ensures
            final(self)@ == old(self)@ + rlp::rlp_string(
                rlp::hex_prefix(path.full().skip(path.at() as int), kind),
            ),
    {
        let rest: NibbleVec = path.rest();
        self.write_path_vec(&rest, kind);
    }

    /// Ends the encoding, a list of the gathered items, and notes in `hash` what stands for it.
    pub fn finalize(self, hash: &mut NodeHash) -> (result: NodeHashRef)
        ensures
            result@ == HashView::of(rlp::rlp_list(self@)),
            final(hash)@ == Some(result@),
    {
        let mut encoded: Vec<u8> = Vec::new();
        write_header(&mut encoded, 0xC0, self.payload.len());
        encoded.extend_from_slice(self.payload.as_slice());
        assert(encoded@ =~= rlp::rlp_list(self@));
        let result: NodeHashRef = if encoded.len() < 32 {
            NodeHashRef::Inline(encoded)
        } else {
            NodeHashRef::Hashed(keccak256_digest(encoded.as_slice()))
        };
        hash.store(result.clone());
        result
    }
}

} // verus!
