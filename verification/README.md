# merkle_trie

A Merkle-Patricia trie whose node operations are verified with Verus, and the exchange of
capabilities of the engine interface.

- `trie::node`: branch, extension and leaf nodes, with `get`, `insert`, `remove` and
  `compute_hash`. `trie::node::extension` holds the extension node and `compute_extension_hash`.
- `trie::db`: the store that nodes are kept in. It only grows; it can be full, and it can be closed.
- `trie::tree`: what the operations mean, on tries as mathematical trees. `trie::stored` says which
  tree a node in a store stands for.
- `trie::writes`: which nodes an insertion or a removal puts into the store, and where.
- `trie::laws` and `trie::hash_laws`: what holds of the operations together, such as what a look-up
  finds after an insertion or a removal, or that what stands for a trie depends on nothing but what
  the trie holds.
- `trie::nibble`, `trie::rlp`, `trie::hashing`: paths, encodings and hashes.
- `rpc`: requests. `rpc::engine` reads, makes and answers the exchange of capabilities.

What is taken on trust: the digest of `sha3` (`trie::hashing`), and how `serde_json` turns lists of
strings into values and back (`rpc::json`).
