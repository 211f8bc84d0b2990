//! Tests of lazy materialization: tries whose nodes live in a backing
//! store as RLP blobs keyed by hash, loaded on demand during lookups and
//! mutations.

use std::cell::RefCell;
use std::collections::HashMap;

use sha3::{Digest, Keccak256};

use merkle_trie::trie::node::Node;
use merkle_trie::trie::trie::new;
use merkle_trie::trie::types::{Database, Id, Reader, TrieError};

/// A store of blobs keyed by their Keccak-256 digest.
struct MapReader {
    blobs: RefCell<HashMap<Vec<u8>, Vec<u8>>>,
}

impl Reader for MapReader {
    fn node(&self, _owner: &Vec<u8>, _path: &Vec<u8>, hash: &Vec<u8>) -> Result<Vec<u8>, ()> {
        self.blobs.borrow().get(hash).cloned().ok_or(())
    }
}

struct MapDb {
    blobs: HashMap<Vec<u8>, Vec<u8>>,
}

impl Database for MapDb {
    type Rd = MapReader;

    fn reader(&self, _state_root: &Vec<u8>) -> Result<MapReader, ()> {
        Ok(MapReader { blobs: RefCell::new(self.blobs.clone()) })
    }
}

fn keccak(data: &[u8]) -> Vec<u8> {
    Keccak256::digest(data).to_vec()
}

/// An RLP string with its header.
fn rlp_string(payload: &[u8]) -> Vec<u8> {
    assert!(payload.len() > 1 || (payload.len() == 1 && payload[0] >= 0x80));
    assert!(payload.len() <= 55);
    let mut out = vec![0x80 + payload.len() as u8];
    out.extend_from_slice(payload);
    out
}

/// An RLP list around already-encoded children.
fn rlp_list(payload: &[u8]) -> Vec<u8> {
    let mut out;
    if payload.len() <= 55 {
        out = vec![0xC0 + payload.len() as u8];
    } else {
        assert!(payload.len() <= 255);
        out = vec![0xF8, payload.len() as u8];
    }
    out.extend_from_slice(payload);
    out
}

/// Builds the stored form of a two-entry trie: "do" and "dog" with values
/// long enough that every node is referenced by hash.
/// Returns the blob store and the root hash.
fn stored_trie(v1: &[u8; 40], v2: &[u8; 40]) -> (HashMap<Vec<u8>, Vec<u8>>, Vec<u8>) {
    // leaf below the branch: key tail "7" + terminator, value v2
    let mut leaf_payload: Vec<u8> = vec![0x37];
    leaf_payload.extend(rlp_string(v2));
    let leaf_blob = rlp_list(&leaf_payload);
    let leaf_hash = keccak(&leaf_blob);
    // the branch: slot 6 references the leaf, slot 16 holds v1
    let mut full_payload: Vec<u8> = Vec::new();
    for i in 0..16 {
        if i == 6 {
            full_payload.extend(rlp_string(&leaf_hash));
        } else {
            full_payload.push(0x80);
        }
    }
    full_payload.extend(rlp_string(v1));
    let full_blob = rlp_list(&full_payload);
    let full_hash = keccak(&full_blob);
    // the root: shared prefix "d","o" over the branch
    let mut root_payload = rlp_string(&[0x00, 0x64, 0x6F]);
    root_payload.extend(rlp_string(&full_hash));
    let root_blob = rlp_list(&root_payload);
    let root_hash = keccak(&root_blob);
    let mut blobs = HashMap::new();
    blobs.insert(leaf_hash, leaf_blob);
    blobs.insert(full_hash, full_blob);
    blobs.insert(root_hash.clone(), root_blob);
    (blobs, root_hash)
}

#[test]
fn lookups_materialize_referenced_subtrees() {
    let v1 = [0xAAu8; 40];
    let v2 = [0xBBu8; 40];
    let (blobs, root_hash) = stored_trie(&v1, &v2);
    let db = MapDb { blobs };
    let id = Id { state_root: vec![0x77; 32], owner: vec![0; 32], root: root_hash.clone() };
    let mut trie = new(id, &db).unwrap();
    assert_eq!(trie.get(b"do"), Some(v1.to_vec()));
    assert_eq!(trie.get(b"dog"), Some(v2.to_vec()));
    assert_eq!(trie.get(b"d"), None);
    assert_eq!(trie.get(b"dogs"), None);
    // the root commitment is unchanged by materialization
    assert_eq!(trie.hash(), root_hash);
}

#[test]
fn stored_trie_matches_the_in_memory_trie() {
    // building the same bindings in memory commits to the same root
    let v1 = [0xAAu8; 40];
    let v2 = [0xBBu8; 40];
    let (_, root_hash) = stored_trie(&v1, &v2);
    let db = MapDb { blobs: HashMap::new() };
    let id = Id { state_root: vec![0; 32], owner: vec![0; 32], root: vec![0; 32] };
    let mut trie = new(id, &db).unwrap();
    trie.insert(b"do", &v1).unwrap();
    trie.insert(b"dog", &v2).unwrap();
    assert_eq!(trie.hash(), root_hash);
}

#[test]
fn mutations_descend_through_references() {
    let v1 = [0xAAu8; 40];
    let v2 = [0xBBu8; 40];
    let (blobs, root_hash) = stored_trie(&v1, &v2);
    let db = MapDb { blobs };
    let id = Id { state_root: vec![0x77; 32], owner: vec![0; 32], root: root_hash };
    let mut trie = new(id, &db).unwrap();
    // insert below the stored branch
    trie.insert(b"doge", b"coin").unwrap();
    assert_eq!(trie.get(b"doge"), Some(b"coin".to_vec()));
    assert_eq!(trie.get(b"do"), Some(v1.to_vec()));
    // delete a stored binding
    trie.delete(b"dog").unwrap();
    assert_eq!(trie.get(b"dog"), None);
    assert_eq!(trie.get(b"doge"), Some(b"coin".to_vec()));
    // the result commits like the same trie built in memory
    let db2 = MapDb { blobs: HashMap::new() };
    let id2 = Id { state_root: vec![0; 32], owner: vec![0; 32], root: vec![0; 32] };
    let mut fresh = new(id2, &db2).unwrap();
    fresh.insert(b"do", &v1).unwrap();
    fresh.insert(b"doge", b"coin").unwrap();
    assert_eq!(trie.hash(), fresh.hash());
}

#[test]
fn missing_subtree_fails_the_mutation() {
    let v1 = [0xAAu8; 40];
    let v2 = [0xBBu8; 40];
    let (mut blobs, root_hash) = stored_trie(&v1, &v2);
    // drop the branch blob: the root still loads, its child cannot
    let root_blob_hash = root_hash.clone();
    blobs.retain(|h, _| *h == root_blob_hash);
    let db = MapDb { blobs };
    let id = Id { state_root: vec![0x77; 32], owner: vec![0; 32], root: root_hash };
    let mut trie = new(id, &db).unwrap();
    match trie.insert(b"dog", b"puppy") {
        Err(TrieError::MissingNode(_)) => {},
        _ => panic!("the missing branch should surface as a missing node"),
    }
    // a failed lookup reports no binding
    assert_eq!(trie.get(b"dog"), None);
}

#[test]
fn corrupt_blob_fails_with_a_decode_error() {
    let v1 = [0xAAu8; 40];
    let v2 = [0xBBu8; 40];
    let (blobs, root_hash) = stored_trie(&v1, &v2);
    // rebind the branch hash to garbage
    let mut corrupt = HashMap::new();
    for (h, b) in blobs {
        if h == root_hash {
            corrupt.insert(h, b);
        } else {
            corrupt.insert(h, vec![0x81, 0x00]);
        }
    }
    let db = MapDb { blobs: corrupt };
    let id = Id { state_root: vec![0x77; 32], owner: vec![0; 32], root: root_hash };
    let mut trie = new(id, &db).unwrap();
    match trie.insert(b"dog", b"puppy") {
        Err(TrieError::Decode) => {},
        _ => panic!("a corrupt blob should surface as a decode error"),
    }
}

#[test]
fn single_node_store_round_trips() {
    // a one-pair trie stored as a single blob
    let blob: Vec<u8> = vec![0xC9, 0x83, 0x20, 0x64, 0x6F, 0x84, 0x76, 0x65, 0x72, 0x62];
    let root_hash = keccak(&blob);
    let mut blobs = HashMap::new();
    blobs.insert(root_hash.clone(), blob);
    let db = MapDb { blobs };
    let id = Id { state_root: vec![0x77; 32], owner: vec![0; 32], root: root_hash.clone() };
    let mut trie = new(id, &db).unwrap();
    assert_eq!(trie.get(b"do"), Some(b"verb".to_vec()));
    assert_eq!(trie.hash(), root_hash);
    // the loaded root is the decoded leaf
    match &trie.root {
        Some(Node::ShortNode(sn)) => {
            assert_eq!(sn.key, vec![6, 4, 6, 15, 16]);
        },
        _ => panic!("the root should be the decoded short node"),
    }
}
