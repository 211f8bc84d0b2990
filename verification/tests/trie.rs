//! Tests of the trie: known root hashes, structure after shared-prefix
//! inserts, idempotence, order independence, cache behaviour, decode/encode
//! round trips, and error surfacing.

use std::cell::Cell;
use std::rc::Rc;

use sha3::{Digest, Keccak256};

use merkle_trie::rlp::rlp_encoder::RlpEncoder;
use merkle_trie::trie::hash::Hasher;
use merkle_trie::trie::node::{decode_node, Node};
use merkle_trie::trie::trie::{new, new_empty};
use merkle_trie::trie::trie_id::trie_id;
use merkle_trie::trie::types::{empty_root_hash, Database, Id, Reader, TrieError};

/// A reader that has nothing and counts how often it was asked.
struct CountingReader {
    calls: Rc<Cell<u64>>,
}

impl Reader for CountingReader {
    fn node(&self, _owner: &Vec<u8>, _path: &Vec<u8>, _hash: &Vec<u8>) -> Result<Vec<u8>, ()> {
        self.calls.set(self.calls.get() + 1);
        Err(())
    }
}

/// A database handing out counting readers that share one counter.
struct CountingDb {
    calls: Rc<Cell<u64>>,
}

impl Database for CountingDb {
    type Rd = CountingReader;

    fn reader(&self, _state_root: &Vec<u8>) -> Result<CountingReader, ()> {
        Ok(CountingReader { calls: Rc::clone(&self.calls) })
    }
}

fn empty_db() -> CountingDb {
    CountingDb { calls: Rc::new(Cell::new(0)) }
}

const EMPTY_ROOT: [u8; 32] = [
    0x56, 0xe8, 0x1f, 0x17, 0x1b, 0xcc, 0x55, 0xa6, 0xff, 0x83, 0x45, 0xe6, 0x92, 0xc0, 0xf8,
    0x6e, 0x5b, 0x48, 0xe0, 0x1b, 0x99, 0x6c, 0xad, 0xc0, 0x01, 0x62, 0x2f, 0xb5, 0xe3, 0x63,
    0xb4, 0x21,
];

#[test]
fn empty_trie_hashes_to_the_empty_root() {
    let db = empty_db();
    let mut trie = new_empty(&db);
    let h = trie.hash();
    assert_eq!(h, EMPTY_ROOT.to_vec());
    // the constant is the digest of the RLP empty string
    assert_eq!(h, Keccak256::digest([0x80u8]).to_vec());
    assert_eq!(h, empty_root_hash());
}

#[test]
fn single_pair_root_is_the_digest_of_its_encoding() {
    let db = empty_db();
    let mut trie = new_empty(&db);
    trie.insert(b"do", b"verb").unwrap();
    // the root is [compact("do" + terminator), "verb"]:
    //   compact key 20 64 6f as a string, then the value string
    let encoding: [u8; 10] = [0xC9, 0x83, 0x20, 0x64, 0x6F, 0x84, 0x76, 0x65, 0x72, 0x62];
    let expected = Keccak256::digest(encoding).to_vec();
    assert_eq!(trie.hash(), expected);
    // independent of the database backing
    let db2 = empty_db();
    let mut trie2 = new_empty(&db2);
    trie2.insert(b"do", b"verb").unwrap();
    assert_eq!(trie2.hash(), expected);
}

#[test]
fn shared_prefix_builds_short_over_branch() {
    let db = empty_db();
    let mut trie = new_empty(&db);
    trie.insert(b"do", b"verb").unwrap();
    trie.insert(b"dog", b"puppy").unwrap();
    // structure: Short("d,o" nibbles) over a Full with slot 6 pointing to
    // Short("7" + terminator, "puppy") and slot 16 = "verb"
    match &trie.root {
        Some(Node::ShortNode(sn)) => {
            assert_eq!(sn.key, vec![6, 4, 6, 15]);
            match &*sn.val {
                Node::FullNode(f) => {
                    assert_eq!(f.children.len(), 17);
                    match &f.children[6] {
                        Node::ShortNode(leaf) => {
                            assert_eq!(leaf.key, vec![7, 16]);
                            match &*leaf.val {
                                Node::ValueNode(v) => assert_eq!(v, b"puppy"),
                                _ => panic!("slot 6 should hold a leaf value"),
                            }
                        },
                        _ => panic!("slot 6 should hold a short node"),
                    }
                    match &f.children[16] {
                        Node::ValueNode(v) => assert_eq!(v, b"verb"),
                        _ => panic!("slot 16 should hold the embedded value"),
                    }
                    for i in 0..16 {
                        if i != 6 {
                            assert!(matches!(f.children[i], Node::Empty));
                        }
                    }
                },
                _ => panic!("the short node should sit over a branch"),
            }
        },
        _ => panic!("the root should be a short node"),
    }
}

#[test]
fn get_returns_what_was_inserted() {
    let db = empty_db();
    let mut trie = new_empty(&db);
    trie.insert(b"do", b"verb").unwrap();
    trie.insert(b"dog", b"puppy").unwrap();
    trie.insert(b"doge", b"coin").unwrap();
    trie.insert(b"horse", b"stallion").unwrap();
    assert_eq!(trie.get(b"do"), Some(b"verb".to_vec()));
    assert_eq!(trie.get(b"dog"), Some(b"puppy".to_vec()));
    assert_eq!(trie.get(b"doge"), Some(b"coin".to_vec()));
    assert_eq!(trie.get(b"horse"), Some(b"stallion".to_vec()));
    assert_eq!(trie.get(b"d"), None);
    assert_eq!(trie.get(b"dogs"), None);
    assert_eq!(trie.get(b"cat"), None);
    // overwriting replaces the value
    trie.insert(b"do", b"noun").unwrap();
    assert_eq!(trie.get(b"do"), Some(b"noun".to_vec()));
}

#[test]
fn delete_removes_only_its_key() {
    let db = empty_db();
    let mut trie = new_empty(&db);
    trie.insert(b"do", b"verb").unwrap();
    trie.insert(b"dog", b"puppy").unwrap();
    trie.insert(b"doge", b"coin").unwrap();
    trie.delete(b"dog").unwrap();
    assert_eq!(trie.get(b"dog"), None);
    assert_eq!(trie.get(b"do"), Some(b"verb".to_vec()));
    assert_eq!(trie.get(b"doge"), Some(b"coin".to_vec()));
}

#[test]
fn insert_then_delete_restores_the_previous_root() {
    let db = empty_db();
    let mut trie = new_empty(&db);
    trie.insert(b"do", b"verb").unwrap();
    let step1 = trie.hash();
    trie.insert(b"dog", b"puppy").unwrap();
    trie.delete(b"dog").unwrap();
    assert_eq!(trie.hash(), step1);
    // and deleting the last key restores the empty root
    trie.delete(b"do").unwrap();
    assert_eq!(trie.hash(), EMPTY_ROOT.to_vec());
}

/// A tiny deterministic generator for bulk keys.
fn lcg_next(x: &mut u64) -> u64 {
    *x = x.wrapping_mul(6364136223846793005).wrapping_add(1442695040888963407);
    *x
}

#[test]
fn bulk_insert_and_delete_all_returns_to_the_empty_root() {
    let db = empty_db();
    let mut trie = new_empty(&db);
    let step1 = trie.hash();
    let mut seed = 0xDEADBEEFu64;
    let mut keys: Vec<[u8; 8]> = Vec::new();
    for _ in 0..1000 {
        let k = lcg_next(&mut seed).to_be_bytes();
        keys.push(k);
        trie.insert(&k, b"v").unwrap();
    }
    // delete in a different order than insertion
    keys.reverse();
    let tail = keys.split_off(317);
    for k in &tail {
        trie.delete(k).unwrap();
    }
    for k in &keys {
        trie.delete(k).unwrap();
    }
    assert_eq!(trie.hash(), step1);
    assert_eq!(trie.hash(), EMPTY_ROOT.to_vec());
}

#[test]
fn root_hash_is_independent_of_insertion_order() {
    let mut seed = 42u64;
    let mut pairs: Vec<([u8; 8], [u8; 4])> = Vec::new();
    for _ in 0..200 {
        let k = lcg_next(&mut seed).to_be_bytes();
        let v = (lcg_next(&mut seed) as u32).to_be_bytes();
        pairs.push((k, v));
    }
    let db = empty_db();
    let mut a = new_empty(&db);
    for (k, v) in &pairs {
        a.insert(k, v).unwrap();
    }
    let db2 = empty_db();
    let mut b = new_empty(&db2);
    for (k, v) in pairs.iter().rev() {
        b.insert(k, v).unwrap();
    }
    assert_eq!(a.hash(), b.hash());
}

#[test]
fn idempotent_insert_keeps_root_and_caches() {
    let db = empty_db();
    let mut trie = new_empty(&db);
    let big1 = [0xABu8; 40];
    let big2 = [0xCDu8; 40];
    trie.insert(b"do", &big1).unwrap();
    trie.insert(b"dog", &big2).unwrap();
    let h1 = trie.hash();
    // hashing memoized the digest of the large branch below the root
    let cached_before = match &trie.root {
        Some(Node::ShortNode(sn)) => match &*sn.val {
            Node::FullNode(f) => f.flags.hash.clone(),
            _ => panic!("expected a branch below the root"),
        },
        _ => panic!("expected a short root"),
    };
    assert!(cached_before.is_some());
    // inserting an identical binding changes nothing, caches included
    trie.insert(b"do", &big1).unwrap();
    let cached_after = match &trie.root {
        Some(Node::ShortNode(sn)) => match &*sn.val {
            Node::FullNode(f) => f.flags.hash.clone(),
            _ => panic!("expected a branch below the root"),
        },
        _ => panic!("expected a short root"),
    };
    assert_eq!(cached_before, cached_after);
    assert_eq!(trie.hash(), h1);
    // deleting an absent key changes nothing either
    trie.delete(b"cat").unwrap();
    assert_eq!(trie.hash(), h1);
}

#[test]
fn hashing_never_consults_the_reader() {
    // a trie bound to a real (counting) reader, mutated purely in memory
    let calls = Rc::new(Cell::new(0));
    let db = CountingDb { calls: Rc::clone(&calls) };
    let id = Id {
        state_root: vec![0x11; 32],
        owner: vec![0; 32],
        root: vec![0; 32],
    };
    let mut trie = new(id, &db).unwrap();
    trie.insert(b"do", b"verb").unwrap();
    trie.insert(b"dog", b"puppy").unwrap();
    let h1 = trie.hash();
    let h2 = trie.hash();
    assert_eq!(h1, h2);
    assert_eq!(calls.get(), 0);
}

#[test]
fn decode_then_encode_round_trips_the_blob() {
    // the canonical encoding of the single-pair root
    let blob: Vec<u8> = vec![0xC9, 0x83, 0x20, 0x64, 0x6F, 0x84, 0x76, 0x65, 0x72, 0x62];
    let hash = Keccak256::digest(&blob).to_vec();
    let node = decode_node(hash, blob.clone()).unwrap();
    match &node {
        Node::ShortNode(sn) => {
            assert_eq!(sn.key, vec![6, 4, 6, 15, 16]);
            match &*sn.val {
                Node::ValueNode(v) => assert_eq!(v, b"verb"),
                _ => panic!("expected a leaf value"),
            }
        },
        _ => panic!("expected a short node"),
    }
    // decoding remembered the hash it was stored under; collapsing such a
    // node short-circuits to that digest
    let mut hasher = Hasher::new();
    let mut node = node;
    let (via_cache, node_back) = hasher.hash(node, false);
    match &via_cache {
        Node::HashNode(h) => assert_eq!(h, &Keccak256::digest(&blob).to_vec()),
        _ => panic!("a cached node should collapse to its digest"),
    }
    node = node_back;
    // with the memo cleared, collapsing re-encodes the identical bytes
    match &mut node {
        Node::ShortNode(sn) => sn.flags.hash = None,
        _ => panic!("expected a short node"),
    }
    let (collapsed, _cached) = hasher.hash(node, false);
    let mut enc = RlpEncoder::new();
    collapsed.encode(&mut enc);
    let mut out: Vec<u8> = Vec::new();
    enc.append_to_bytes(&mut out);
    assert_eq!(out, blob);
}

#[test]
fn decode_rejects_malformed_blobs() {
    let h = vec![0u8; 32];
    // not a list
    assert!(decode_node(h.clone(), vec![0x83, 1, 2, 3]).is_err());
    // a list with a bad element count
    assert!(decode_node(h.clone(), vec![0xC3, 0x01, 0x02, 0x03]).is_err());
    // empty input
    assert!(decode_node(h.clone(), Vec::new()).is_err());
    // trailing bytes after the node
    let mut blob = vec![0xC9u8, 0x83, 0x20, 0x64, 0x6F, 0x84, 0x76, 0x65, 0x72, 0x62];
    blob.push(0x00);
    assert!(decode_node(h.clone(), blob).is_err());
    // an empty leaf value would encode like an absent child
    assert!(decode_node(h.clone(), vec![0xC5, 0x83, 0x20, 0x64, 0x6F, 0x80]).is_err());
    // a flag byte outside the canonical compact form
    assert!(decode_node(h.clone(), vec![0xC9, 0x83, 0x4F, 0x64, 0x6F, 0x84, 0x76, 0x65, 0x72, 0x62]).is_err());
}

#[test]
fn missing_root_surfaces_as_missing_node() {
    let calls = Rc::new(Cell::new(0));
    let db = CountingDb { calls: Rc::clone(&calls) };
    let id = Id {
        state_root: vec![0x22; 32],
        owner: vec![0; 32],
        root: vec![0x33; 32],
    };
    match new(id, &db) {
        Err(TrieError::MissingNode(e)) => {
            assert_eq!(e.node_hash, vec![0x33; 32]);
        },
        _ => panic!("resolving the root should report the missing node"),
    }
    assert!(calls.get() > 0);
}

#[test]
fn reset_clears_to_the_empty_trie() {
    let db = empty_db();
    let mut trie = new_empty(&db);
    trie.insert(b"do", b"verb").unwrap();
    trie.reset();
    assert_eq!(trie.hash(), EMPTY_ROOT.to_vec());
    assert_eq!(trie.get(b"do"), None);
}

#[test]
fn trie_id_uses_the_root_for_the_state() {
    let id = trie_id(empty_root_hash());
    assert_eq!(id.state_root, empty_root_hash());
    assert_eq!(id.root, empty_root_hash());
    assert_eq!(id.owner, vec![0u8; 32]);
}
