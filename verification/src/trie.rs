//! The hex-Patricia trie: node model, nibble/compact key encodings, the
//! node-to-RLP encoder, the hashing pipeline, and the structural operations.

pub mod canonical;
pub mod encoding;
pub mod hash;
pub mod node;
pub mod node_encoder;
pub mod trie;
pub mod trie_id;
pub mod trie_reader;
pub mod types;
