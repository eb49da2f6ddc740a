//! A Merkle-Patricia trie, node by node: look-up, insertion, removal and hashing, over a store that
//! only grows; and the exchange of capabilities between a consensus and an execution client.

pub mod error;
pub mod rpc;
pub mod trie;
