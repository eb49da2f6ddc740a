[package]
name = "merkle_trie"
version = "0.1.0"
edition = "2021"

[dependencies]
serde_json = "1"
sha3 = "0.10"
