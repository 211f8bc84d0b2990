//! A hex-Patricia Merkle trie: a persistent key-value index whose root is a
//! Keccak-256 commitment to its contents, serialized with the canonical
//! recursive-length-prefix (RLP) encoding.

pub mod rlp;
pub mod trie;
