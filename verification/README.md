# common

Account-state commitments for a rollup, verified with Verus.

- `src/hash.rs`: SHA-256 of bytes (through the `sha2` crate), of a pair of
  nodes, and of an account (public key, balance and nonce in little-endian).
- `src/order.rs`: the lexicographic order on public keys and a stable sort of
  accounts by public key, with the proof that the sort is unique.
- `src/merkle.rs`: a Merkle tree of 16 leaves over the accounts in key order,
  its root, inclusion proofs, and the proof that every inclusion proof the tree
  hands out verifies against its root.
- `src/types.rs`: the account, batch, transaction and proof types, and proof
  verification.
- `app/`: serde-enabled copies of the data types, with conversions.
