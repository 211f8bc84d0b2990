//! The trie's view of the backing store: wraps the database reader and
//! turns "no reader", reader errors and empty blobs into missing-node
//! failures.

use vstd::prelude::*;

use crate::trie::types::{bytes_equal, empty_root_hash, is_zero_hash, Database, MissingNodeError, Reader};
use crate::trie::node::clone_bytes;

verus! {

/// A wrapper of the underlying node reader. Not safe for concurrent usage.
pub struct TrieReader<R: Reader> {
    /// The owner hash passed through to the underlying reader.
    pub owner: Vec<u8>,
    /// The database reader, absent for an empty state.
    pub reader: Option<R>,
}

impl<R: Reader> TrieReader<R> {
    /// Retrieves the blob for the node with the given path and hash. An
    /// absent reader, a reader error or an empty blob is a missing node.
    pub fn node(&self, path: &Vec<u8>, hash: &Vec<u8>) -> (r: Result<Vec<u8>, ()>)
        ensures
            r matches Ok(blob) ==> blob@.len() > 0,
            self.reader is None ==> r is Err,
    {
        match &self.reader {
            Some(reader) => {
                let blob = reader.node(&self.owner, path, hash);
                match blob {
                    Ok(blob) => {
                        if blob.len() == 0 {
                            Err(())
                        } else {
                            Ok(blob)
                        }
                    },
                    Err(_) => Err(()),
                }
            },
            None => Err(()),
        }
    }
}

/// Opens a reader for the given state. An empty or zero state root has no
/// backing state and gets a reader that reports every node as missing.
pub fn new_trie_reader<D: Database>(
    state_root: &Vec<u8>,
    owner: &Vec<u8>,
    db: &D,
) -> (r: Result<TrieReader<D::Rd>, MissingNodeError>)
    ensures
        r matches Ok(t) ==> t.owner@ == owner@,
        state_root@ == crate::trie::types::empty_root_hash_spec() ==> (r matches Ok(t) && t.reader
            is None),
        (forall|i: int| 0 <= i < state_root@.len() ==> #[trigger] state_root@[i] == 0) ==> (
        r matches Ok(t) && t.reader is None),
{
    let empty_root = empty_root_hash();
    if is_zero_hash(state_root.as_slice()) || bytes_equal(
        state_root.as_slice(),
        empty_root.as_slice(),
    ) {
        return Ok(TrieReader { owner: clone_bytes(owner), reader: None });
    }
    match db.reader(state_root) {
        Ok(reader) => Ok(TrieReader { owner: clone_bytes(owner), reader: Some(reader) }),
        Err(_) => Err(MissingNodeError {
            owner: clone_bytes(owner),
            node_hash: clone_bytes(state_root),
            path: Vec::new(),
        }),
    }
}

/// A reader with no backing state at all.
pub fn new_empty_reader<R: Reader>() -> (r: TrieReader<R>) {
    TrieReader { owner: crate::trie::types::zero_hash(), reader: None }
}

} // verus!
