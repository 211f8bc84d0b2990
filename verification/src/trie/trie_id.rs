//! Constructing trie identifiers.

use vstd::prelude::*;

use crate::trie::node::clone_bytes;
use crate::trie::types::Id;

verus! {

/// An identifier for a standard trie (not a second-layer trie) with the
/// given root: the state root is the root itself and the owner is zero.
pub fn trie_id(root: Vec<u8>) -> (r: Id)
    ensures
        r.state_root@ == root@,
        r.root@ == root@,
        r.owner@ == Seq::new(32, |i: int| 0u8),
{
    let state_root = clone_bytes(&root);
    Id { state_root, owner: crate::trie::types::zero_hash(), root }
}

} // verus!
