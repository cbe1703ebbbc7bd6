//! Account state commitments for a rollup: SHA-256 hashing of accounts and
//! node pairs, a fixed-capacity Merkle tree over the accounts ordered by public
//! key, and inclusion proofs that can be checked against a root.

pub mod hash;
pub mod merkle;
pub mod order;
pub mod types;
