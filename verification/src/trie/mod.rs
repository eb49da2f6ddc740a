//! The Merkle-Patricia trie.

pub mod contents_laws;
pub mod db;
pub mod encoding_laws;
pub mod facts;
pub mod hash_laws;
pub mod hashing;
pub mod laws;
pub mod nibble;
pub mod node;
pub mod node_ref;
pub mod rlp;
pub mod store_laws;
pub mod stored;
pub mod tree;
pub mod writes;

pub use node::{PathRLP, ValueRLP};
