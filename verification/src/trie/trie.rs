//! The trie's structural operations: lookup, insertion and deletion over
//! the recursive node type, preserving the minimal-form invariants, with
//! lazy materialization of hash-referenced subtrees through the reader.

use vstd::prelude::*;

use crate::trie::encoding::{
    has_term_spec, is_valid_hex_key, keybytes_to_hex, keybytes_to_hex_spec, prefix_len, suffix,
};
use crate::trie::node::{
    child_mut, children_map, clone_bytes, count_nonempty, decode_node, empty_children,
    lemma_children_map_congruent, lemma_children_map_contains, lemma_children_map_single,
    lemma_children_map_mono, lemma_children_map_update_insert, lemma_children_map_update_remove,
    lemma_count_nonempty_update, lemma_prefixed_concat, lemma_prefixed_insert,
    lemma_prefixed_mono,
    lemma_prefixed_nil, lemma_prefixed_remove, lemma_prefixed_value, lemma_resolved_children_build,
    lemma_resolved_children_index, lemma_same_children_build, lemma_same_node_refl,
    lemma_wf_children_build, lemma_wf_children_index, node_map, prefixed, resolved,
    resolved_children, same_node, take_node, wf_children, wf_node, FullNode, Node, NodeFlag,
    ShortNode,
};
use crate::trie::hash::{
    cache_children_ok, cache_ok, enc_bounded, keccak256_of, lemma_cache_children_build,
    lemma_cache_children_index, lemma_same_node_cache_ok, node_enc, Hasher,
};
use crate::trie::trie_reader::{new_trie_reader, TrieReader};
use crate::trie::types::{
    bytes_equal, empty_root_hash, is_zero_hash, Database, Id, MissingNodeError, Reader, Tracer,
    TrieError, HASH_LENGTH,
};

verus! {

/// A hex-Patricia trie over a backing node reader. The root is absent for
/// an empty trie; subtrees may be `HashNode` references resolved on demand.
pub struct Trie<R: Reader> {
    /// The in-memory root, absent when the trie is empty.
    pub root: Option<Node>,
    /// The owner-account context handed to the reader.
    pub owner: Vec<u8>,
    /// Whether the commit operation was already performed.
    pub committed: bool,
    /// Leaves inserted since the last hashing operation.
    pub unhashed: u64,
    /// The handle the trie retrieves nodes through.
    pub reader: TrieReader<R>,
    /// The tool that tracks trie changes.
    pub tracer: Tracer,
}

/// A valid key for the structural operations: a well-formed hex key that is
/// either empty or terminated.
pub open spec fn is_op_key(k: Seq<u8>) -> bool {
    is_valid_hex_key(k) && (k.len() == 0 || has_term_spec(k))
}

impl<R: Reader> Trie<R> {
    /// The set of bindings the in-memory root stands for, keyed by
    /// terminated hex-nibble paths.
    pub open spec fn as_map(self) -> Map<Seq<u8>, Seq<u8>> {
        match self.root {
            Some(n) => node_map(n),
            None => Map::empty(),
        }
    }

    /// Structural well-formedness of the whole trie.
    pub open spec fn wf(self) -> bool {
        match self.root {
            Some(n) => wf_node(n) && (n is ShortNode || n is FullNode || n is HashNode),
            None => true,
        }
    }

    /// Whether every subtree is materialized in memory.
    pub open spec fn is_resolved(self) -> bool {
        match self.root {
            Some(n) => resolved(n),
            None => true,
        }
    }

    /// Every memoized hash in the trie is valid for its node's current
    /// encoding. Mutations on a materialized trie preserve this: they
    /// clear the memos along the rebuilt spine and keep the rest.
    pub open spec fn caches_valid(self) -> bool {
        match self.root {
            Some(n) => cache_ok(n),
            None => true,
        }
    }

    /// The machine-size bound hashing needs: every encoding below the root
    /// leaves room for the encoder's accounting.
    pub open spec fn enc_budget(self) -> bool {
        match self.root {
            Some(n) => enc_bounded(n),
            None => true,
        }
    }

    /// Flags of a node freshly touched by a mutation: dirty, no valid cache.
    pub fn new_flag(&self) -> (r: NodeFlag)
        ensures
            r.hash is None,
            r.dirty,
    {
        NodeFlag { dirty: true, hash: None }
    }

    /// Loads the node the hash refers to, through the reader, and decodes
    /// it. The path prefix is advisory context for the store.
    fn resolve_and_track(&self, hash_node: &Vec<u8>, prefix: &Vec<u8>) -> (r: Result<
        Node,
        TrieError,
    >)
        ensures
            r matches Ok(n) ==> wf_node(n) && (n is ShortNode || n is FullNode)
                && crate::trie::canonical::stored_form(n)
                && crate::trie::canonical::no_empty_values(n) && !crate::trie::node::dirty_of(n)
                && (crate::trie::node::memo_of(n) matches Some(h) && h@ == hash_node@),
    {
        let blob = match self.reader.node(prefix, hash_node) {
            Ok(blob) => blob,
            Err(_) => {
                return Err(TrieError::MissingNode(MissingNodeError {
                    owner: clone_bytes(&self.owner),
                    node_hash: clone_bytes(hash_node),
                    path: clone_bytes(prefix),
                }));
            },
        };
        match decode_node(clone_bytes(hash_node), blob) {
            Ok(n) => Ok(n),
            Err(_) => Err(TrieError::Decode),
        }
    }

    /// Resolves a node if it is a hash reference; any other node is
    /// returned as it is.
    pub fn resolve(&self, node: Node, prefix: &Vec<u8>) -> (r: Result<Node, TrieError>)
        requires
            wf_node(node),
        ensures
            r matches Ok(n) ==> wf_node(n) && !(n is HashNode) && (node is HashNode || n == node),
            !(node is HashNode) ==> r == Ok::<Node, TrieError>(node),
            node is HashNode ==> (r matches Ok(n) ==> (n is ShortNode || n is FullNode)
                && crate::trie::canonical::stored_form(n)
                && crate::trie::canonical::no_empty_values(n)
                && (crate::trie::node::memo_of(n) matches Some(h) && h@ == node->HashNode_0@)),
    {
        match &node {
            Node::HashNode(h) => {
                let hash_copy = clone_bytes(h);
                self.resolve_and_track(&hash_copy, prefix)
            },
            _ => Ok(node),
        }
    }

    /// Inserts `value` under the remaining hex key `key`, in place.
    ///
    /// On success the returned flag says whether anything changed: `false`
    /// means the identical value was already present, and the node — caches
    /// included — is untouched. For a fully materialized subtree the final
    /// node holds exactly the bindings of the original plus `(key, value)`,
    /// and the operation cannot fail.
    pub fn insert_at(&self, node: &mut Node, key: Vec<u8>, value: Vec<u8>) -> (r: Result<
        bool,
        TrieError,
    >)
        requires
            wf_node(*old(node)),
            is_op_key(key@),
            key@.len() == 0 ==> ((*old(node)) is ValueNode || (*old(node)) is Empty),
            key@.len() > 0 ==> !((*old(node)) is ValueNode),
        ensures
            wf_node(*final(node)),
            !((*final(node)) is Empty),
            key@.len() == 0 ==> ((*final(node)) is ValueNode),
            r is Ok ==> (key@.len() > 0 ==> ((*final(node)) is FullNode || (*final(node))
                is ShortNode)),
            (*old(node)) is FullNode ==> (*final(node)) is FullNode,
            (*old(node)) is ShortNode ==> ((*final(node)) is ShortNode || (*final(node))
                is FullNode),
            r is Err ==> ((*old(node)) is HashNode || (*old(node)) is ShortNode || (*old(node))
                is FullNode),
            (*old(node)) is HashNode ==> ((*final(node)) is HashNode || (*final(node))
                is ShortNode || (*final(node)) is FullNode),
            resolved(*old(node)) ==> r is Ok,
            r matches Ok(dirty) ==> (resolved(*old(node)) ==> {
                &&& resolved(*final(node))
                &&& node_map(*final(node)) == node_map(*old(node)).insert(key@, value@)
                &&& dirty == !(node_map(*old(node)).contains_key(key@) && node_map(*old(node))[key@]
                    == value@)
                &&& (!dirty ==> same_node(*final(node), *old(node)))
            }),
            (r is Ok && resolved(*old(node)) && cache_ok(*old(node))) ==> cache_ok(*final(node)),
            ((*old(node)) is Empty && key@.len() > 0 && r is Ok) ==> ((*final(node)) is ShortNode
                && (*final(node))->ShortNode_0.key@ == key@ && (*(*final(node))->ShortNode_0.val)
                is ValueNode && (*(*final(node))->ShortNode_0.val)->ValueNode_0@ == value@ && (
            *final(node))->ShortNode_0.flags.hash is None && (
            *final(node))->ShortNode_0.flags.dirty),
        decreases key@.len(), (if (*old(node)) is HashNode { 1int } else { 0int }),
    {
        let ghost old_node = *node;
        if key.len() == 0 {
            // the end of the path: replace the value; nothing is dirty if
            // the identical value is already here
            let dirty: bool;
            match &*node {
                Node::ValueNode(v) => {
                    dirty = !bytes_equal(v.as_slice(), value.as_slice());
                },
                _ => {
                    dirty = true;
                },
            }
            proof {
                assert(key@ =~= Seq::<u8>::empty());
                let m = node_map(old_node);
                assert(m.insert(key@, value@) =~= Map::<Seq<u8>, Seq<u8>>::empty().insert(
                    Seq::empty(),
                    value@,
                ));
            }
            if dirty {
                *node = Node::ValueNode(value);
                proof {
                    assert(node_map(*node) =~= Map::<Seq<u8>, Seq<u8>>::empty().insert(
                        Seq::empty(),
                        value@,
                    ));
                    assert(cache_ok(*node));
                }
            } else {
                proof {
                    lemma_same_node_refl(*node);
                    assert(node_map(old_node) =~= node_map(old_node).insert(key@, value@));
                }
            }
            return Ok(dirty);
        }
        // decide the case without holding a borrow open
        let fork_len: Option<usize>;
        match &*node {
            Node::ShortNode(sn) => {
                let matchlen = prefix_len(&key, &sn.key);
                if matchlen < sn.key.len() {
                    fork_len = Some(matchlen);
                } else {
                    fork_len = None;
                }
            },
            _ => {
                fork_len = None;
            },
        }
        if let Some(matchlen) = fork_len {
            // the keys diverge: fork into a branch holding the existing
            // subtree and the new value
            return self.insert_fork(node, matchlen, key, value);
        }
        match node {
            Node::Empty => {
                let ghost value_view = value@;
                let vnode = Node::ValueNode(value);
                proof {
                    assert(wf_node(vnode));
                    assert(resolved(vnode));
                    assert(node_map(vnode) == Map::<Seq<u8>, Seq<u8>>::empty().insert(
                        Seq::empty(),
                        value_view,
                    ));
                }
                let new_short = ShortNode { key, val: Box::new(vnode), flags: self.new_flag() };
                proof {
                    lemma_prefixed_value(new_short.key@, value_view);
                    assert(node_map(Node::ShortNode(new_short)) == Map::<Seq<u8>, Seq<u8>>::empty()
                        .insert(new_short.key@, value_view));
                    assert(Map::<Seq<u8>, Seq<u8>>::empty().insert(new_short.key@, value_view)
                        =~= node_map(old_node).insert(new_short.key@, value_view));
                }
                *node = Node::ShortNode(new_short);
                proof {
                    assert(resolved(*node));
                    assert(cache_ok(*node)) by {
                        assert(cache_ok(*(*node)->ShortNode_0.val));
                    }
                }
                Ok(true)
            },
            Node::HashNode(h) => {
                // a part of the trie that is not loaded yet: load it and
                // insert into the loaded subtree, which replaces the
                // reference
                let hash_copy = clone_bytes(&*h);
                let prefix: Vec<u8> = Vec::new();
                let loaded = match self.resolve_and_track(&hash_copy, &prefix) {
                    Ok(n) => n,
                    Err(e) => {
                        return Err(e);
                    },
                };
                *node = loaded;
                match self.insert_at(node, key, value) {
                    Ok(_) => Ok(true),
                    Err(e) => Err(e),
                }
            },
            Node::FullNode(f) => {
                let j = key[0] as usize;
                let tail = suffix(key.as_slice(), 1);
                let ghost old_children = f.children@;
                proof {
                    assert(key@[0] < 17);
                    assert(f.children@.len() == 17);
                    lemma_wf_children_index(f.children@, 17, j as int);
                    if resolved(old_node) {
                        lemma_resolved_children_index(old_children, 17, j as int);
                    }
                    // the tail is empty exactly at the value slot
                    if key@.len() == 1 {
                        assert(key@[0] == 16);
                    } else {
                        assert(key@[0] < 16);
                        assert(has_term_spec(tail@));
                        assert(is_valid_hex_key(tail@)) by {
                            assert(forall|i: int| 0 <= i < tail@.len() ==> tail@[i] == key@[i + 1]);
                        }
                    }
                }
                let child = child_mut(&mut f.children, j);
                let res = self.insert_at(child, tail, value);
                let dirty = match &res {
                    Ok(d) => *d,
                    Err(_) => true,
                };
                if dirty && res.is_ok() {
                    f.flags = self.new_flag();
                }
                proof {
                    let cs2 = f.children@;
                    let childf = cs2[j as int];
                    let childo = old_children[j as int];
                    assert(cs2 == old_children.update(j as int, childf));
                    assert(wf_node(*final(node))) by {
                        assert forall|l: int| 0 <= l < 17 implies wf_node(#[trigger] cs2[l]) by {
                            if l != j {
                                assert(cs2[l] == old_children[l]);
                                lemma_wf_children_index(old_children, 17, l);
                            }
                        }
                        lemma_wf_children_build(cs2, 17);
                        lemma_count_nonempty_update(old_children, j as int, childf, 17);
                        assert(count_nonempty(cs2, 17) >= 2);
                        assert(!(childf is Empty));
                        assert forall|l: int| 0 <= l < 16 implies !((#[trigger] cs2[l])
                            is ValueNode) by {
                            if l != j {
                                assert(cs2[l] == old_children[l]);
                            } else {
                                assert(tail@.len() > 0);
                            }
                        }
                        assert(cs2[16] is ValueNode || cs2[16] is Empty) by {
                            if j != 16 {
                                assert(cs2[16] == old_children[16]);
                            } else {
                                assert(tail@.len() == 0);
                            }
                        }
                    }
                    if res is Ok && resolved(old_node) {
                        assert(resolved(childo));
                        assert(resolved_children(cs2, 17)) by {
                            assert forall|l: int| 0 <= l < 17 implies resolved(
                                #[trigger] cs2[l],
                            ) by {
                                if l != j {
                                    assert(cs2[l] == old_children[l]);
                                    lemma_resolved_children_index(old_children, 17, l);
                                }
                            }
                            lemma_resolved_children_build(cs2, 17);
                        }
                        // the branch map gains the binding behind nibble j
                        lemma_children_map_update_insert(
                            old_children,
                            j as int,
                            childf,
                            tail@,
                            value@,
                        );
                        assert(seq![(j as u8)] + tail@ =~= key@);
                        lemma_children_map_contains(old_children, 17, key@);
                        if !dirty {
                            assert(same_node(*final(node), old_node)) by {
                                assert forall|l: int| 0 <= l < 17 implies same_node(
                                    #[trigger] cs2[l],
                                    old_children[l],
                                ) by {
                                    if l != j {
                                        assert(cs2[l] == old_children[l]);
                                        lemma_same_node_refl(cs2[l]);
                                    }
                                }
                                lemma_same_children_build(cs2, old_children, 17);
                            }
                        }
                        if cache_ok(old_node) {
                            // untouched memos stay valid; the rebuilt spine
                            // carries none
                            if !dirty {
                                lemma_same_node_cache_ok(*final(node), old_node);
                            } else {
                                assert forall|l: int| 0 <= l < 17 implies cache_ok(
                                    #[trigger] cs2[l],
                                ) by {
                                    lemma_cache_children_index(old_children, 17, l);
                                    if l != j {
                                        assert(cs2[l] == old_children[l]);
                                    }
                                }
                                lemma_cache_children_build(cs2, 17);
                                assert(cache_ok(*final(node)));
                            }
                        }
                    }
                }
                match res {
                    Ok(_) => Ok(dirty),
                    Err(e) => Err(e),
                }
            },
            Node::ShortNode(sn) => {
                // the whole node key is a prefix: insert below it
                let matchlen = sn.key.len();
                let tail = suffix(key.as_slice(), matchlen);
                proof {
                    assert(forall|i: int| 0 <= i < matchlen ==> key@[i] == sn.key@[i]);
                    if has_term_spec(sn.key@) {
                        // the keys coincide entirely
                        assert(key@[matchlen - 1] == 16);
                        assert(key@.len() == matchlen);
                        assert(tail@.len() == 0);
                    } else {
                        assert(key@.len() > matchlen) by {
                            if key@.len() == matchlen {
                                assert(key@[matchlen - 1] == 16);
                                assert(sn.key@[matchlen - 1] == 16);
                            }
                        }
                        assert(has_term_spec(tail@));
                        assert(is_valid_hex_key(tail@)) by {
                            assert(forall|i: int| 0 <= i < tail@.len() ==> tail@[i] == key@[i
                                + matchlen]);
                        }
                    }
                }
                // materialize a referenced child first, so that the shape
                // of the result is known before anything is modified
                let child_is_hash = Self::node_is_hash(&*sn.val);
                if child_is_hash {
                    proof {
                        assert((*sn.val) is HashNode);
                        assert(!resolved(*sn.val));
                        assert(resolved(old_node) == resolved(*old_node->ShortNode_0.val));
                        assert(!resolved(old_node));
                    }
                    let hash_copy = match &*sn.val {
                        Node::HashNode(h) => clone_bytes(h),
                        _ => Vec::new(),
                    };
                    let prefix: Vec<u8> = Vec::new();
                    let loaded = match self.resolve_and_track(&hash_copy, &prefix) {
                        Ok(n) => n,
                        Err(e) => {
                            return Err(e);
                        },
                    };
                    match &loaded {
                        Node::FullNode(_) => {},
                        _ => {
                            // an extension must reference a branch;
                            // anything else is a corrupt store
                            return Err(TrieError::Decode);
                        },
                    }
                    *sn.val = loaded;
                }
                let ghost mid_child = *sn.val;
                let res = self.insert_at(&mut *sn.val, tail, value);
                let dirty = match &res {
                    Ok(d) => *d,
                    Err(_) => true,
                };
                if dirty && res.is_ok() {
                    sn.flags = self.new_flag();
                }
                proof {
                    let childf = *sn.val;
                    assert(wf_node(*final(node)));
                    if res is Ok && resolved(old_node) {
                        assert(resolved(childf));
                        assert(resolved(*final(node)));
                        let old_child = old_node->ShortNode_0.val;
                        assert(mid_child == *old_child);
                        assert(resolved(mid_child));
                        lemma_prefixed_insert(sn.key@, node_map(mid_child), tail@, value@);
                        assert(sn.key@ + tail@ =~= key@);
                        assert(node_map(*final(node)) == node_map(old_node).insert(key@, value@));
                        if node_map(old_node).contains_key(key@) {
                            assert(node_map(old_node)[key@] == node_map(mid_child)[tail@]);
                        }
                        if node_map(mid_child).contains_key(tail@) {
                            assert(key@.take(sn.key@.len() as int) =~= sn.key@);
                            assert(key@.skip(sn.key@.len() as int) =~= tail@);
                            assert(node_map(old_node).contains_key(key@));
                        }
                        if !dirty {
                            assert(same_node(*final(node), old_node));
                        }
                        if cache_ok(old_node) {
                            if !dirty {
                                lemma_same_node_cache_ok(*final(node), old_node);
                            } else {
                                assert(cache_ok(childf));
                                assert(cache_ok(*final(node)));
                            }
                        }
                    }
                }
                match res {
                    Ok(_) => Ok(dirty),
                    Err(e) => Err(e),
                }
            },
            Node::ValueNode(_) => {
                proof {
                    assert(false);
                }
                Err(TrieError::Decode)
            },
        }
    }

    /// Splits a short node whose key diverges from the inserted key at
    /// `matchlen`: a branch takes the two subtrees, under the shared prefix
    /// if there is one.
    fn insert_fork(&self, node: &mut Node, matchlen: usize, key: Vec<u8>, value: Vec<u8>) -> (r:
        Result<bool, TrieError>)
        requires
            wf_node(*old(node)),
            (*old(node)) is ShortNode,
            is_op_key(key@),
            key@.len() > 0,
            matchlen < (*old(node))->ShortNode_0.key@.len(),
            matchlen <= key@.len(),
            forall|i: int| 0 <= i < matchlen ==> key@[i] == (*old(node))->ShortNode_0.key@[i],
            matchlen < key@.len() && matchlen < (*old(node))->ShortNode_0.key@.len()
                ==> key@[matchlen as int] != (*old(node))->ShortNode_0.key@[matchlen as int],
        ensures
            wf_node(*final(node)),
            (*final(node)) is ShortNode || (*final(node)) is FullNode,
            r is Ok,
            resolved(*old(node)) ==> {
                &&& resolved(*final(node))
                &&& node_map(*final(node)) == node_map(*old(node)).insert(key@, value@)
                &&& !(node_map(*old(node)).contains_key(key@) && node_map(*old(node))[key@]
                    == value@)
            },
            (resolved(*old(node)) && cache_ok(*old(node))) ==> cache_ok(*final(node)),
            r == Ok::<bool, TrieError>(true),
    {
        let ghost old_node = *node;
        let owned = take_node(node);
        let sn = match owned {
            Node::ShortNode(sn) => sn,
            _ => {
                proof {
                    assert(false);
                }
                return Err(TrieError::Decode);
            },
        };
        let ghost skey = sn.key@;
        let ghost vm = node_map(*sn.val);
        proof {
            assert(owned == old_node);
            assert(skey == old_node->ShortNode_0.key@);
            assert(matchlen < skey.len());
            assert(is_valid_hex_key(skey));
            // the insert key cannot end at the divergence point
            assert(matchlen < key@.len()) by {
                if matchlen == key@.len() {
                    assert(key@[matchlen - 1] == 16);
                    assert(skey[matchlen - 1] == 16);
                    assert(skey.len() > matchlen);
                }
            }
        }
        let skeylen = sn.key.len();
        let keylen = key.len();
        proof {
            assert(matchlen < skeylen && matchlen < keylen);
        }
        let idx1 = sn.key[matchlen] as usize;
        let idx2 = key[matchlen] as usize;
        let tail1 = suffix(sn.key.as_slice(), matchlen + 1);
        let tail2 = suffix(key.as_slice(), matchlen + 1);
        proof {
            assert(idx1 < 17 && idx2 < 17 && idx1 != idx2);
            assert(is_valid_hex_key(tail1@)) by {
                assert(forall|i: int| 0 <= i < tail1@.len() ==> tail1@[i] == skey[i + matchlen
                    + 1]);
            }
            assert(is_valid_hex_key(tail2@)) by {
                assert(forall|i: int| 0 <= i < tail2@.len() ==> tail2@[i] == key@[i + matchlen
                    + 1]);
            }
            assert(has_term_spec(skey) ==> (tail1@.len() == 0 <==> idx1 == 16));
            assert(tail1@.len() == 0 && !has_term_spec(skey) ==> idx1 < 16);
            assert(tail2@.len() == 0 <==> idx2 == 16);
            if tail1@.len() > 0 {
                assert(has_term_spec(tail1@) == has_term_spec(skey));
                assert(idx1 < 16);
            }
            if tail2@.len() > 0 {
                assert(has_term_spec(tail2@));
                assert(idx2 < 16);
            }
        }
        // the existing subtree, pushed one nibble down
        let c1: Node;
        if tail1.len() == 0 {
            c1 = *sn.val;
            proof {
                lemma_prefixed_nil(vm);
                assert(tail1@ =~= Seq::<u8>::empty());
                assert(node_map(c1) == prefixed(tail1@, vm));
            }
        } else {
            let inner = ShortNode { key: tail1, val: sn.val, flags: self.new_flag() };
            c1 = Node::ShortNode(inner);
        }
        // the new value, pushed one nibble down
        let ghost value_view = value@;
        let c2: Node;
        {
            let vnode = Node::ValueNode(value);
            proof {
                assert(wf_node(vnode));
                assert(resolved(vnode));
                assert(node_map(vnode) == Map::<Seq<u8>, Seq<u8>>::empty().insert(
                    Seq::empty(),
                    value_view,
                ));
            }
            if tail2.len() == 0 {
                c2 = vnode;
            } else {
                let inner = ShortNode { key: tail2, val: Box::new(vnode), flags: self.new_flag() };
                c2 = Node::ShortNode(inner);
            }
        }
        proof {
            assert(resolved(c2));
            assert(node_map(c2) =~= Map::<Seq<u8>, Seq<u8>>::empty().insert(tail2@, value_view)) by {
                if tail2@.len() == 0 {
                    assert(tail2@ =~= Seq::<u8>::empty());
                } else {
                    lemma_prefixed_value(tail2@, value_view);
                }
            }
        }
        let mut branch_children = empty_children();
        let ghost cs0 = branch_children@;
        let slot1 = child_mut(&mut branch_children, idx1);
        *slot1 = c1;
        let ghost cs1 = branch_children@;
        let slot2 = child_mut(&mut branch_children, idx2);
        *slot2 = c2;
        let ghost cs2 = branch_children@;
        let branch = FullNode { children: branch_children, flags: self.new_flag() };
        proof {
            assert(cs1 == cs0.update(idx1 as int, c1));
            assert(cs2 == cs1.update(idx2 as int, c2));
            assert(!(c1 is Empty)) by {
                if tail1@.len() == 0 {
                    assert(has_term_spec(skey) ==> c1 is ValueNode);
                }
            }
            // well-formedness of the branch
            assert(wf_node(Node::FullNode(branch))) by {
                assert(wf_node(c1)) by {
                    if tail1@.len() > 0 {
                        assert(has_term_spec(tail1@) <==> has_term_spec(skey));
                    }
                }
                assert(wf_node(c2));
                assert(forall|l: int| 0 <= l < 17 && l != idx1 && l != idx2 ==> (
                #[trigger] cs2[l]) is Empty);
                assert forall|l: int| 0 <= l < 17 implies wf_node(#[trigger] cs2[l]) by {
                    if l != idx1 && l != idx2 {
                        assert(cs2[l] is Empty);
                    }
                }
                lemma_wf_children_build(cs2, 17);
                lemma_count_nonempty_update(cs0, idx1 as int, c1, 17);
                lemma_count_nonempty_update(cs1, idx2 as int, c2, 17);
                assert(count_nonempty(cs0, 17) == 0) by {
                    lemma_count_all_empty(cs0, 17);
                }
                assert(count_nonempty(cs2, 17) == 2);
                assert(cs2[16] is ValueNode || cs2[16] is Empty) by {
                    if idx1 == 16 {
                        assert(cs2[16] == c1);
                    } else if idx2 == 16 {
                        assert(cs2[16] == c2);
                    } else {
                        assert(cs2[16] is Empty);
                    }
                }
                assert(forall|l: int| 0 <= l < 16 ==> !((#[trigger] cs2[l]) is ValueNode)) by {
                    assert(tail1@.len() == 0 && idx1 < 16 ==> !(c1 is ValueNode));
                    assert(idx2 < 16 ==> !(c2 is ValueNode));
                }
            }
            // the branch holds the old subtree and the new binding
            if resolved(old_node) {
                assert(resolved(*sn.val));
                assert(resolved(c1));
                assert(resolved(c2));
                assert forall|l: int| 0 <= l < 17 implies resolved(#[trigger] cs2[l]) by {
                    if l != idx1 && l != idx2 {
                        assert(cs2[l] is Empty);
                    }
                }
                lemma_resolved_children_build(cs2, 17);
                lemma_children_map_single(cs1, idx1 as int);
                assert(cs1[idx2 as int] == cs0[idx2 as int]);
                assert(cs1[idx2 as int] is Empty);
                assert(node_map(cs1[idx2 as int]) =~= Map::<Seq<u8>, Seq<u8>>::empty());
                assert(node_map(c2) =~= node_map(cs1[idx2 as int]).insert(tail2@, value_view));
                lemma_children_map_update_insert(
                    cs1,
                    idx2 as int,
                    c2,
                    tail2@,
                    value_view,
                );
                assert(children_map(cs2, 17) == prefixed(seq![idx1 as u8], node_map(c1)).insert(
                    seq![idx2 as u8] + tail2@,
                    value_view,
                ));
                assert(resolved(Node::FullNode(branch))) by {
                    assert(resolved_children(branch.children@, 17));
                }
            }
        }
        let result: Node;
        let ghost kp = key@.take(matchlen as int);
        if matchlen == 0 {
            result = Node::FullNode(branch);
        } else {
            let pfx = crate::trie::encoding::suffix_range(key.as_slice(), 0, matchlen);
            proof {
                assert(pfx@ =~= kp);
                assert(is_valid_hex_key(pfx@)) by {
                    assert(forall|i: int| 0 <= i < pfx@.len() ==> pfx@[i] == key@[i]);
                    assert(forall|i: int| 0 <= i < pfx@.len() ==> key@[i] < 16) by {
                        assert(forall|i: int| 0 <= i < matchlen ==> skey[i] == key@[i]);
                    }
                }
                assert(!has_term_spec(pfx@)) by {
                    assert(pfx@.len() > 0 ==> pfx@[pfx@.len() - 1] < 16);
                }
            }
            result = Node::ShortNode(
                ShortNode { key: pfx, val: Box::new(Node::FullNode(branch)), flags: self.new_flag() },
            );
        }
        proof {
            if resolved(old_node) {
                let bm = children_map(cs2, 17);
                let full_key2 = kp + (seq![idx2 as u8] + tail2@);
                assert(full_key2 =~= key@);
                // old map: the short key splits as prefix + nibble + tail
                assert(skey =~= kp + (seq![idx1 as u8] + tail1@)) by {
                    assert(skey.take(matchlen as int) =~= kp);
                }
                lemma_prefixed_concat(seq![idx1 as u8], tail1@, vm);
                assert(prefixed(seq![idx1 as u8], node_map(c1)) == prefixed(
                    seq![idx1 as u8] + tail1@,
                    vm,
                )) by {
                    if tail1@.len() == 0 {
                        assert(seq![idx1 as u8] + tail1@ =~= seq![idx1 as u8]);
                        assert(node_map(c1) == prefixed(tail1@, vm));
                        lemma_prefixed_concat(seq![idx1 as u8], tail1@, vm);
                    }
                }
                lemma_prefixed_concat(kp, seq![idx1 as u8] + tail1@, vm);
                assert(prefixed(kp, prefixed(seq![idx1 as u8], node_map(c1))) == node_map(old_node));
                lemma_prefixed_insert(kp, prefixed(seq![idx1 as u8], node_map(c1)), seq![idx2 as u8] + tail2@, value_view);
                assert(prefixed(kp, bm) == node_map(old_node).insert(key@, value_view));
                assert(node_map(Node::FullNode(branch)) == bm);
                if matchlen == 0 {
                    assert(kp =~= Seq::<u8>::empty());
                    lemma_prefixed_nil(bm);
                    assert(prefixed(kp, bm) == bm);
                    assert(node_map(result) == node_map(old_node).insert(key@, value_view));
                } else {
                    assert(result->ShortNode_0.key@ == kp);
                    assert(node_map(result) == prefixed(kp, node_map(*result->ShortNode_0.val)));
                    assert(node_map(result) == prefixed(kp, bm));
                }
                assert(resolved(result)) by {
                    assert(resolved(Node::FullNode(branch)));
                }
                // the binding was absent: the keys diverge inside the old prefix
                assert(!node_map(old_node).contains_key(key@)) by {
                    if node_map(old_node).contains_key(key@) {
                        assert(key@.take(skey.len() as int) == skey);
                        assert(key@[matchlen as int] == skey[matchlen as int]);
                    }
                }
            }
            if resolved(old_node) && cache_ok(old_node) {
                // everything rebuilt carries no memo; the moved subtree
                // keeps its own valid memos
                assert(cache_ok(c1)) by {
                    assert(cache_ok(*old_node->ShortNode_0.val));
                }
                assert(cache_ok(c2)) by {
                    if c2 is ShortNode {
                        assert(cache_ok(*c2->ShortNode_0.val));
                    }
                }
                assert forall|l: int| 0 <= l < 17 implies cache_ok(#[trigger] cs2[l]) by {
                    if l != idx1 && l != idx2 {
                        assert(cs2[l] is Empty);
                    }
                }
                lemma_cache_children_build(cs2, 17);
                assert(cache_ok(Node::FullNode(branch)));
                assert(cache_ok(result));
            }
        }
        *node = result;
        Ok(true)
    }
    /// Deletes the binding at the remaining hex key `key`, in place,
    /// reducing the trie to minimal form on the way up.
    ///
    /// On success the returned flag says whether the key was present; when
    /// it was not, the node — caches included — is untouched. For a fully
    /// materialized subtree the final node holds exactly the bindings of
    /// the original except `key`, and the operation cannot fail.
    pub fn delete_at(&self, node: &mut Node, key: Vec<u8>) -> (r: Result<bool, TrieError>)
        requires
            wf_node(*old(node)),
            is_op_key(key@),
            key@.len() == 0 ==> ((*old(node)) is ValueNode || (*old(node)) is Empty),
            key@.len() > 0 ==> !((*old(node)) is ValueNode),
        ensures
            wf_node(*final(node)),
            key@.len() > 0 ==> !((*final(node)) is ValueNode),
            key@.len() == 0 ==> (*final(node)) is Empty,
            (*old(node)) is FullNode ==> ((*final(node)) is FullNode || (*final(node))
                is ShortNode),
            (*old(node)) is ShortNode ==> ((*final(node)) is ShortNode || (*final(node))
                is FullNode || (*final(node)) is Empty),
            (*old(node)) is HashNode ==> !((*final(node)) is ValueNode),
            (*old(node)) is Empty ==> (*final(node)) is Empty,
            r is Err ==> ((*old(node)) is HashNode || (*old(node)) is ShortNode || (*old(node))
                is FullNode),
            r is Err ==> !((*final(node)) is Empty) && !((*final(node)) is ValueNode),
            r is Err ==> ((*old(node)) is ShortNode ==> (*final(node)) is ShortNode),
            (*old(node)) is ValueNode ==> r == Ok::<bool, TrieError>(true),
            r == Ok::<bool, TrieError>(false) ==> ((*old(node)) is FullNode ==> (*final(node))
                is FullNode) && ((*old(node)) is ShortNode ==> (*final(node)) is ShortNode) && (
            (*old(node)) is HashNode ==> ((*final(node)) is ShortNode || (*final(node))
                is FullNode)),
            resolved(*old(node)) ==> r is Ok,
            (r is Ok && resolved(*old(node)) && cache_ok(*old(node))) ==> cache_ok(*final(node)),
            r matches Ok(dirty) ==> (resolved(*old(node)) ==> {
                &&& resolved(*final(node))
                &&& node_map(*final(node)) == node_map(*old(node)).remove(key@)
                &&& dirty == node_map(*old(node)).contains_key(key@)
                &&& (!dirty ==> same_node(*final(node), *old(node)))
            }),
        decreases key@.len(), (if (*old(node)) is HashNode { 1int } else { 0int }),
    {
        let ghost old_node = *node;
        match node {
            Node::Empty => {
                proof {
                    lemma_same_node_refl(*node);
                    assert(node_map(old_node).remove(key@) =~= node_map(old_node));
                }
                Ok(false)
            },
            Node::ValueNode(_) => {
                *node = Node::Empty;
                proof {
                    assert(key@ =~= Seq::<u8>::empty());
                    assert(node_map(old_node).contains_key(key@));
                    assert(node_map(old_node).remove(key@) =~= Map::<Seq<u8>, Seq<u8>>::empty());
                }
                Ok(true)
            },
            Node::HashNode(h) => {
                // not loaded yet: load and delete from the loaded subtree
                let hash_copy = clone_bytes(&*h);
                let prefix: Vec<u8> = Vec::new();
                let loaded = match self.resolve_and_track(&hash_copy, &prefix) {
                    Ok(n) => n,
                    Err(e) => {
                        return Err(e);
                    },
                };
                *node = loaded;
                self.delete_at(node, key)
            },
            Node::ShortNode(sn) => {
                let matchlen = prefix_len(&key, &sn.key);
                if matchlen < sn.key.len() {
                    // the key is not below this node
                    proof {
                        lemma_same_node_refl(*node);
                        if resolved(old_node) {
                            assert(!node_map(old_node).contains_key(key@)) by {
                                if node_map(old_node).contains_key(key@) {
                                    assert(key@.take(sn.key@.len() as int) == sn.key@);
                                    assert(key@[matchlen as int] == sn.key@[matchlen as int]);
                                }
                            }
                            assert(node_map(old_node).remove(key@) =~= node_map(old_node));
                        }
                    }
                    return Ok(false);
                }
                if matchlen == key.len() {
                    // the key ends exactly here: drop the leaf
                    proof {
                        assert(key@ =~= sn.key@);
                        assert(has_term_spec(sn.key@));
                        let v = *sn.val;
                        assert(v is ValueNode);
                        assert(node_map(v) == Map::<Seq<u8>, Seq<u8>>::empty().insert(
                            Seq::empty(),
                            v->ValueNode_0@,
                        ));
                        lemma_prefixed_value(sn.key@, v->ValueNode_0@);
                        assert(node_map(old_node) == Map::<Seq<u8>, Seq<u8>>::empty().insert(
                            sn.key@,
                            v->ValueNode_0@,
                        ));
                        assert(node_map(old_node).contains_key(key@));
                        assert(node_map(old_node).remove(key@) =~= Map::<Seq<u8>, Seq<u8>>::empty());
                    }
                    *node = Node::Empty;
                    return Ok(true);
                }
                // the key continues below: the node key is a proper prefix
                let tail = suffix(key.as_slice(), matchlen);
                proof {
                    assert(forall|i: int| 0 <= i < matchlen ==> key@[i] == sn.key@[i]);
                    assert(!has_term_spec(sn.key@)) by {
                        if has_term_spec(sn.key@) {
                            assert(key@[matchlen - 1] == 16);
                            assert(key@.len() > matchlen);
                        }
                    }
                    assert(has_term_spec(tail@));
                    assert(is_valid_hex_key(tail@)) by {
                        assert(forall|i: int| 0 <= i < tail@.len() ==> tail@[i] == key@[i
                            + matchlen]);
                    }
                }
                // materialize a referenced child first
                let child_is_hash = Self::node_is_hash(&*sn.val);
                if child_is_hash {
                    proof {
                        assert((*sn.val) is HashNode);
                        assert(!resolved(*sn.val));
                        assert(resolved(old_node) == resolved(*old_node->ShortNode_0.val));
                        assert(!resolved(old_node));
                    }
                    let hash_copy = match &*sn.val {
                        Node::HashNode(h) => clone_bytes(h),
                        _ => Vec::new(),
                    };
                    let prefix: Vec<u8> = Vec::new();
                    let loaded = match self.resolve_and_track(&hash_copy, &prefix) {
                        Ok(n) => n,
                        Err(e) => {
                            return Err(e);
                        },
                    };
                    match &loaded {
                        Node::FullNode(_) => {},
                        _ => {
                            // an extension must reference a branch;
                            // anything else is a corrupt store
                            return Err(TrieError::Decode);
                        },
                    }
                    *sn.val = loaded;
                }
                let ghost mid_child = *sn.val;
                let res = self.delete_at(&mut *sn.val, tail);
                let dirty = match &res {
                    Ok(d) => *d,
                    Err(_) => false,
                };
                let ghost child_f = *sn.val;
                let child_is_short = Self::node_is_short(&*sn.val);
                match res {
                    Ok(_) => {},
                    Err(e) => {
                        // keep the minimal form even on a failing path
                        if child_is_short {
                            self.merge_short(node);
                        }
                        proof {
                            assert(wf_node(*final(node)));
                        }
                        return Err(e);
                    },
                }
                if !dirty {
                    proof {
                        assert(wf_node(*final(node)));
                        if resolved(old_node) {
                            let old_child = old_node->ShortNode_0.val;
                            assert(mid_child == *old_child);
                            assert(same_node(*final(node), old_node));
                            lemma_prefixed_remove(sn.key@, node_map(mid_child), tail@);
                            assert(sn.key@ + tail@ =~= key@);
                            assert(node_map(*sn.val) =~= node_map(mid_child).remove(tail@));
                            assert(node_map(*final(node)) == node_map(old_node).remove(key@));
                            assert(!node_map(mid_child).contains_key(tail@));
                            assert(!node_map(old_node).contains_key(key@)) by {
                                if node_map(old_node).contains_key(key@) {
                                    assert(key@.skip(sn.key@.len() as int) =~= tail@);
                                }
                            }
                            if cache_ok(old_node) {
                                lemma_same_node_cache_ok(*final(node), old_node);
                            }
                        }
                    }
                    return Ok(false);
                }
                // the child changed: keep the minimal form
                proof {
                    // the subtree below an extension keeps at least one
                    // binding, so the child is a short or full node
                    assert((*sn.val) is ShortNode || (*sn.val) is FullNode);
                    if resolved(old_node) {
                        assert(resolved(mid_child));
                        lemma_prefixed_remove(sn.key@, node_map(mid_child), tail@);
                        assert(sn.key@ + tail@ =~= key@);
                        assert(key@.take(sn.key@.len() as int) =~= sn.key@);
                        assert(key@.skip(sn.key@.len() as int) =~= tail@);
                        assert(node_map(old_node).contains_key(key@));
                        assert(node_map(child_f) == node_map(mid_child).remove(tail@));
                    }
                }
                proof {
                    if resolved(old_node) && cache_ok(old_node) {
                        assert(cache_ok(mid_child));
                        assert(cache_ok(child_f));
                    }
                }
                if child_is_short {
                    // merge the two short nodes into one
                    self.merge_short(node);
                } else {
                    sn.flags = self.new_flag();
                    proof {
                        assert(wf_node(*final(node)));
                        if resolved(old_node) {
                            assert(resolved(*final(node)));
                            if cache_ok(old_node) {
                                assert(cache_ok(*final(node)));
                            }
                        }
                    }
                }
                proof {
                    if resolved(old_node) {
                        assert(node_map(*final(node)) == prefixed(
                            old_node->ShortNode_0.key@,
                            node_map(child_f),
                        ));
                        assert(node_map(*final(node)) == node_map(old_node).remove(key@));
                    }
                }
                Ok(true)
            },
            Node::FullNode(f) => {
                let j = key[0] as usize;
                let tail = suffix(key.as_slice(), 1);
                let ghost old_children = f.children@;
                proof {
                    assert(key@[0] < 17);
                    assert(f.children@.len() == 17);
                    lemma_wf_children_index(f.children@, 17, j as int);
                    if resolved(old_node) {
                        lemma_resolved_children_index(old_children, 17, j as int);
                    }
                    if key@.len() == 1 {
                        assert(key@[0] == 16);
                    } else {
                        assert(key@[0] < 16);
                        assert(has_term_spec(tail@));
                        assert(is_valid_hex_key(tail@)) by {
                            assert(forall|i: int| 0 <= i < tail@.len() ==> tail@[i] == key@[i + 1]);
                        }
                    }
                }
                let child = child_mut(&mut f.children, j);
                let res = self.delete_at(child, tail);
                let dirty = match &res {
                    Ok(d) => *d,
                    Err(_) => false,
                };
                proof {
                    let cs2 = f.children@;
                    let childf = cs2[j as int];
                    assert(cs2 == old_children.update(j as int, childf));
                    assert forall|l: int| 0 <= l < 17 implies wf_node(#[trigger] cs2[l]) by {
                        if l != j {
                            assert(cs2[l] == old_children[l]);
                            lemma_wf_children_index(old_children, 17, l);
                        }
                    }
                    lemma_wf_children_build(cs2, 17);
                    lemma_count_nonempty_update(old_children, j as int, childf, 17);
                    assert forall|l: int| 0 <= l < 16 implies !((#[trigger] cs2[l]) is ValueNode) by {
                        if l != j {
                            assert(cs2[l] == old_children[l]);
                        } else {
                            assert(tail@.len() > 0);
                        }
                    }
                    assert(cs2[16] is ValueNode || cs2[16] is Empty) by {
                        if j != 16 {
                            assert(cs2[16] == old_children[16]);
                        } else {
                            assert(tail@.len() == 0);
                        }
                    }
                }
                match res {
                    Ok(_) => {},
                    Err(e) => {
                        proof {
                            let cs2 = f.children@;
                            assert(!(old_children[j as int] is Empty));
                            assert(!(cs2[j as int] is Empty));
                            lemma_count_nonempty_update(
                                old_children,
                                j as int,
                                cs2[j as int],
                                17,
                            );
                            assert(count_nonempty(cs2, 17) >= 2);
                        }
                        return Err(e);
                    },
                }
                if !dirty {
                    proof {
                        assert(count_nonempty(f.children@, 17) >= 2);
                        if resolved(old_node) {
                            let cs2 = f.children@;
                            let childf = cs2[j as int];
                            let childo = old_children[j as int];
                            assert(same_node(childf, childo));
                            assert forall|l: int| 0 <= l < 17 implies same_node(
                                #[trigger] cs2[l],
                                old_children[l],
                            ) by {
                                if l != j {
                                    assert(cs2[l] == old_children[l]);
                                    lemma_same_node_refl(cs2[l]);
                                }
                            }
                            lemma_same_children_build(cs2, old_children, 17);
                            assert(same_node(*final(node), old_node));
                            assert forall|l: int| 0 <= l < 17 implies resolved(
                                #[trigger] cs2[l],
                            ) by {
                                if l != j {
                                    assert(cs2[l] == old_children[l]);
                                    lemma_resolved_children_index(old_children, 17, l);
                                }
                            }
                            lemma_resolved_children_build(cs2, 17);
                            // nothing was removed
                            lemma_children_map_update_remove(
                                old_children,
                                j as int,
                                cs2[j as int],
                                tail@,
                            );
                            assert(seq![(j as u8)] + tail@ =~= key@);
                            lemma_children_map_contains(old_children, 17, key@);
                            if cache_ok(old_node) {
                                lemma_same_node_cache_ok(*final(node), old_node);
                            }
                        }
                    }
                    return Ok(false);
                }
                // count what is left of the branch
                let mut nonempty: usize = 0;
                let mut pos: usize = 0;
                let mut l: usize = 0;
                while l < 17
                    invariant
                        l <= 17,
                        f.children@.len() == 17,
                        nonempty == count_nonempty(f.children@, l as int),
                        nonempty <= l,
                        nonempty >= 1 ==> (pos < l && !(f.children@[pos as int] is Empty)),
                        nonempty == 1 ==> (forall|x: int| 0 <= x < l && x != pos
                            ==> (#[trigger] f.children@[x]) is Empty),
                        nonempty == 0 ==> (forall|x: int| 0 <= x < l
                            ==> (#[trigger] f.children@[x]) is Empty),
                    decreases 17 - l,
                {
                    let is_empty: bool;
                    match &f.children[l] {
                        Node::Empty => {
                            is_empty = true;
                        },
                        _ => {
                            is_empty = false;
                        },
                    }
                    if !is_empty {
                        nonempty = nonempty + 1;
                        pos = l;
                    }
                    l = l + 1;
                }
                proof {
                    lemma_count_nonempty_update(
                        old_children,
                        j as int,
                        f.children@[j as int],
                        17,
                    );
                    assert(nonempty >= 1);
                    if resolved(old_node) {
                        let cs2 = f.children@;
                        assert forall|x: int| 0 <= x < 17 implies resolved(
                            #[trigger] cs2[x],
                        ) by {
                            if x != j {
                                assert(cs2[x] == old_children[x]);
                                lemma_resolved_children_index(old_children, 17, x);
                            }
                        }
                        lemma_resolved_children_build(cs2, 17);
                        lemma_children_map_update_remove(
                            old_children,
                            j as int,
                            cs2[j as int],
                            tail@,
                        );
                        assert(seq![(j as u8)] + tail@ =~= key@);
                        lemma_children_map_contains(old_children, 17, key@);
                    }
                }
                proof {
                    if resolved(old_node) && cache_ok(old_node) {
                        let cs2 = f.children@;
                        assert forall|l: int| 0 <= l < 17 implies cache_ok(
                            #[trigger] cs2[l],
                        ) by {
                            lemma_cache_children_index(old_children, 17, l);
                            if l != j {
                                assert(cs2[l] == old_children[l]);
                            }
                        }
                        lemma_cache_children_build(cs2, 17);
                    }
                }
                if nonempty >= 2 {
                    f.flags = self.new_flag();
                    proof {
                        assert(wf_node(*final(node)));
                        if resolved(old_node) && cache_ok(old_node) {
                            assert(cache_ok(*final(node)));
                        }
                    }
                    return Ok(true);
                }
                // exactly one child is left: collapse the branch
                self.collapse_full(node, pos)?;
                proof {
                    if resolved(old_node) {
                        assert(node_map(*final(node)) == node_map(old_node).remove(key@));
                    }
                }
                Ok(true)
            },
        }
    }

    /// Looks up the value at the remaining hex key `key`. A hash reference
    /// met on the way down is resolved and spliced back in, so later lookups
    /// run in memory; on a fully materialized subtree nothing changes.
    pub fn get_at(&self, node: &mut Node, key: Vec<u8>) -> (r: Result<Option<Vec<u8>>, TrieError>)
        requires
            wf_node(*old(node)),
            is_op_key(key@),
            key@.len() == 0 ==> ((*old(node)) is ValueNode || (*old(node)) is Empty),
            key@.len() > 0 ==> !((*old(node)) is ValueNode),
        ensures
            wf_node(*final(node)),
            (*old(node)) is FullNode ==> (*final(node)) is FullNode,
            (*old(node)) is ShortNode ==> (*final(node)) is ShortNode,
            (*old(node)) is Empty ==> (*final(node)) is Empty,
            (*old(node)) is ValueNode ==> (*final(node)) is ValueNode,
            (*old(node)) is HashNode ==> ((*final(node)) is HashNode || (*final(node))
                is ShortNode || (*final(node)) is FullNode),
            resolved(*old(node)) ==> r is Ok,
            resolved(*old(node)) ==> (resolved(*final(node)) && same_node(*final(node), *old(node))
                && node_map(*final(node)) == node_map(*old(node))),
            r matches Ok(v) ==> (resolved(*old(node)) ==> (match v {
                Some(bytes) => node_map(*old(node)).contains_key(key@) && bytes@ == node_map(
                    *old(node),
                )[key@],
                None => !node_map(*old(node)).contains_key(key@),
            })),
            // a splice only reveals bindings, and the answer is the final
            // subtree's binding, materialized or not
            r is Ok ==> node_map(*old(node)).submap_of(node_map(*final(node))),
            r matches Ok(v) ==> (match v {
                Some(bytes) => node_map(*final(node)).contains_key(key@) && bytes@ == node_map(
                    *final(node),
                )[key@],
                None => !node_map(*final(node)).contains_key(key@),
            }),
        decreases key@.len(), (if (*old(node)) is HashNode { 1int } else { 0int }),
    {
        let ghost old_node = *node;
        match node {
            Node::Empty => {
                proof {
                    lemma_same_node_refl(*node);
                }
                Ok(None)
            },
            Node::ValueNode(v) => {
                proof {
                    lemma_same_node_refl(old_node);
                    assert(key@ =~= Seq::<u8>::empty());
                    assert(node_map(old_node).contains_key(key@));
                }
                Ok(Some(clone_bytes(v)))
            },
            Node::HashNode(h) => {
                let hash_copy = clone_bytes(&*h);
                let prefix: Vec<u8> = Vec::new();
                let loaded = match self.resolve_and_track(&hash_copy, &prefix) {
                    Ok(n) => n,
                    Err(e) => {
                        return Err(e);
                    },
                };
                *node = loaded;
                proof {
                    assert(node_map(old_node) =~= Map::<Seq<u8>, Seq<u8>>::empty());
                }
                self.get_at(node, key)
            },
            Node::ShortNode(sn) => {
                let matchlen = prefix_len(&key, &sn.key);
                if matchlen < sn.key.len() {
                    // the key is not below this node
                    proof {
                        lemma_same_node_refl(*node);
                        assert(!node_map(old_node).contains_key(key@)) by {
                            if node_map(old_node).contains_key(key@) {
                                assert(key@.take(sn.key@.len() as int) == sn.key@);
                                assert(key@[matchlen as int] == sn.key@[matchlen as int]);
                            }
                        }
                    }
                    return Ok(None);
                }
                let tail = suffix(key.as_slice(), matchlen);
                proof {
                    assert(forall|i: int| 0 <= i < matchlen ==> key@[i] == sn.key@[i]);
                    if has_term_spec(sn.key@) {
                        assert(key@[matchlen - 1] == 16);
                        assert(key@.len() == matchlen);
                        assert(tail@.len() == 0);
                    } else {
                        assert(key@.len() > matchlen) by {
                            if key@.len() == matchlen {
                                assert(key@[matchlen - 1] == 16);
                                assert(sn.key@[matchlen - 1] == 16);
                            }
                        }
                        assert(has_term_spec(tail@));
                        assert(is_valid_hex_key(tail@)) by {
                            assert(forall|i: int| 0 <= i < tail@.len() ==> tail@[i] == key@[i
                                + matchlen]);
                        }
                    }
                }
                // materialize a referenced child first, so the minimal
                // form survives the splice
                let child_is_hash = Self::node_is_hash(&*sn.val);
                if child_is_hash {
                    proof {
                        assert((*sn.val) is HashNode);
                        assert(!resolved(*sn.val));
                        assert(resolved(old_node) == resolved(*old_node->ShortNode_0.val));
                        assert(!resolved(old_node));
                    }
                    let hash_copy = match &*sn.val {
                        Node::HashNode(h) => clone_bytes(h),
                        _ => Vec::new(),
                    };
                    let prefix: Vec<u8> = Vec::new();
                    let loaded = match self.resolve_and_track(&hash_copy, &prefix) {
                        Ok(n) => n,
                        Err(e) => {
                            return Err(e);
                        },
                    };
                    match &loaded {
                        Node::FullNode(_) => {},
                        _ => {
                            // an extension must reference a branch;
                            // anything else is a corrupt store
                            return Err(TrieError::Decode);
                        },
                    }
                    *sn.val = loaded;
                }
                let ghost old_child0 = *old_node->ShortNode_0.val;
                let ghost old_child = *sn.val;
                let res = self.get_at(&mut *sn.val, tail);
                proof {
                    assert(wf_node(*final(node)));
                    let childf = *sn.val;
                    if res is Ok {
                        // the key's fate in the final subtree decides the
                        // answer, materialized or not
                        assert(key@.take(sn.key@.len() as int) =~= sn.key@);
                        assert(key@.skip(sn.key@.len() as int) =~= tail@);
                        if node_map(childf).contains_key(tail@) {
                            assert(node_map(*final(node)).contains_key(key@));
                            assert(node_map(*final(node))[key@] == node_map(childf)[tail@]);
                        }
                        if node_map(*final(node)).contains_key(key@) {
                            assert(node_map(childf).contains_key(tail@));
                        }
                        // the splice only reveals bindings
                        assert(node_map(old_child0).submap_of(node_map(old_child))) by {
                            if old_child0 is HashNode {
                                assert(node_map(old_child0) =~= Map::<Seq<u8>, Seq<u8>>::empty());
                            }
                        }
                        assert(node_map(old_child0).submap_of(node_map(childf)));
                        lemma_prefixed_mono(sn.key@, node_map(old_child0), node_map(childf));
                        assert(node_map(old_node).submap_of(node_map(*final(node))));
                    }
                    if resolved(old_node) {
                        assert(old_child == *old_node->ShortNode_0.val);
                        assert(resolved(old_child));
                        assert(same_node(*final(node), old_node));
                        assert(node_map(*final(node)) == node_map(old_node));
                        assert(sn.key@ + tail@ =~= key@);
                        if node_map(old_child).contains_key(tail@) {
                            assert(key@.take(sn.key@.len() as int) =~= sn.key@);
                            assert(key@.skip(sn.key@.len() as int) =~= tail@);
                            assert(node_map(old_node).contains_key(key@));
                            assert(node_map(old_node)[key@] == node_map(old_child)[tail@]);
                        }
                        if node_map(old_node).contains_key(key@) {
                            assert(key@.skip(sn.key@.len() as int) =~= tail@);
                            assert(node_map(old_child).contains_key(tail@));
                        }
                    }
                }
                res
            },
            Node::FullNode(f) => {
                let j = key[0] as usize;
                let tail = suffix(key.as_slice(), 1);
                let ghost old_children = f.children@;
                proof {
                    assert(key@[0] < 17);
                    assert(f.children@.len() == 17);
                    lemma_wf_children_index(f.children@, 17, j as int);
                    if resolved(old_node) {
                        lemma_resolved_children_index(old_children, 17, j as int);
                    }
                    if key@.len() == 1 {
                        assert(key@[0] == 16);
                    } else {
                        assert(key@[0] < 16);
                        assert(has_term_spec(tail@));
                        assert(is_valid_hex_key(tail@)) by {
                            assert(forall|i: int| 0 <= i < tail@.len() ==> tail@[i] == key@[i + 1]);
                        }
                    }
                }
                let child = child_mut(&mut f.children, j);
                let res = self.get_at(child, tail);
                proof {
                    let cs2 = f.children@;
                    let childf = cs2[j as int];
                    let childo = old_children[j as int];
                    assert(cs2 == old_children.update(j as int, childf));
                    assert forall|l: int| 0 <= l < 17 implies wf_node(#[trigger] cs2[l]) by {
                        if l != j {
                            assert(cs2[l] == old_children[l]);
                            lemma_wf_children_index(old_children, 17, l);
                        }
                    }
                    lemma_wf_children_build(cs2, 17);
                    lemma_count_nonempty_update(old_children, j as int, childf, 17);
                    if res is Ok {
                        // the key's fate in the final branch decides the
                        // answer, and the splice only reveals bindings
                        assert(seq![(j as u8)] + tail@ =~= key@);
                        lemma_children_map_contains(cs2, 17, key@);
                        assert(key@[0] == j as u8 && key@.skip(1) =~= tail@);
                        assert forall|l: int| 0 <= l < 17 implies node_map(
                            #[trigger] old_children[l],
                        ).submap_of(node_map(cs2[l])) by {
                            if l != j {
                                assert(cs2[l] == old_children[l]);
                            }
                        }
                        lemma_children_map_mono(old_children, cs2, 17);
                    }
                    assert forall|l: int| 0 <= l < 16 implies !((#[trigger] cs2[l]) is ValueNode) by {
                        if l != j {
                            assert(cs2[l] == old_children[l]);
                        } else {
                            assert(tail@.len() > 0);
                        }
                    }
                    assert(cs2[16] is ValueNode || cs2[16] is Empty) by {
                        if j != 16 {
                            assert(cs2[16] == old_children[16]);
                        } else {
                            assert(tail@.len() == 0);
                        }
                    }
                    assert(wf_node(*final(node)));
                    if resolved(old_node) {
                        assert(same_node(childf, childo));
                        assert forall|l: int| 0 <= l < 17 implies same_node(
                            #[trigger] cs2[l],
                            old_children[l],
                        ) by {
                            if l != j {
                                assert(cs2[l] == old_children[l]);
                                lemma_same_node_refl(cs2[l]);
                            }
                        }
                        lemma_same_children_build(cs2, old_children, 17);
                        assert(same_node(*final(node), old_node));
                        assert forall|l: int| 0 <= l < 17 implies resolved(#[trigger] cs2[l]) by {
                            if l != j {
                                assert(cs2[l] == old_children[l]);
                                lemma_resolved_children_index(old_children, 17, l);
                            }
                        }
                        lemma_resolved_children_build(cs2, 17);
                        assert forall|l: int| 0 <= l < 17 implies node_map(#[trigger] cs2[l])
                            == node_map(old_children[l]) by {
                            if l != j {
                                assert(cs2[l] == old_children[l]);
                            }
                        }
                        lemma_children_map_congruent(cs2, old_children, 17);
                        assert(node_map(*final(node)) == node_map(old_node));
                        assert(seq![(j as u8)] + tail@ =~= key@);
                        lemma_children_map_contains(old_children, 17, key@);
                    }
                }
                res
            },
        }
    }

    /// Whether the node is a short node.
    fn node_is_short(node: &Node) -> (r: bool)
        ensures
            r == (*node is ShortNode),
    {
        match node {
            Node::ShortNode(_) => true,
            _ => false,
        }
    }

    /// Whether the node is a hash reference.
    fn node_is_hash(node: &Node) -> (r: bool)
        ensures
            r == (*node is HashNode),
    {
        match node {
            Node::HashNode(_) => true,
            _ => false,
        }
    }

    /// Merges a short node whose child is itself a short node into one
    /// short node with the concatenated key, preserving the bindings.
    fn merge_short(&self, node: &mut Node)
        requires
            (*old(node)) is ShortNode,
            (*old(node))->ShortNode_0.key@.len() > 0,
            is_valid_hex_key((*old(node))->ShortNode_0.key@),
            !has_term_spec((*old(node))->ShortNode_0.key@),
            (*(*old(node))->ShortNode_0.val) is ShortNode,
            wf_node(*(*old(node))->ShortNode_0.val),
        ensures
            (*final(node)) is ShortNode,
            wf_node(*final(node)),
            node_map(*final(node)) == prefixed(
                (*old(node))->ShortNode_0.key@,
                node_map(*(*old(node))->ShortNode_0.val),
            ),
            resolved(*(*old(node))->ShortNode_0.val) ==> resolved(*final(node)),
            cache_ok(*(*old(node))->ShortNode_0.val) ==> cache_ok(*final(node)),
    {
        let ghost old_node = *node;
        let ghost child = *old_node->ShortNode_0.val;
        let owned = take_node(node);
        let osn = match owned {
            Node::ShortNode(osn) => osn,
            _ => {
                proof {
                    assert(false);
                }
                vstd::pervasive::unreached()
            },
        };
        let cn = match *osn.val {
            Node::ShortNode(cn) => cn,
            _ => {
                proof {
                    assert(false);
                }
                vstd::pervasive::unreached()
            },
        };
        let mut merged_key = osn.key;
        let mut ckey = cn.key;
        let ghost skey = merged_key@;
        let ghost ckey_v = ckey@;
        merged_key.append(&mut ckey);
        let merged = ShortNode { key: merged_key, val: cn.val, flags: self.new_flag() };
        proof {
            assert(merged.key@ == skey + ckey_v);
            assert(forall|i: int| 0 <= i < skey.len() ==> #[trigger] skey[i] < 16);
            assert(is_valid_hex_key(merged.key@)) by {
                assert(forall|i: int| 0 <= i < skey.len() ==> merged.key@[i] == skey[i]);
                assert(forall|i: int| 0 <= i < ckey_v.len() ==> merged.key@[i + skey.len()]
                    == ckey_v[i]);
            }
            assert(ckey_v.len() > 0);
            assert(has_term_spec(merged.key@) == has_term_spec(ckey_v)) by {
                assert(merged.key@[merged.key@.len() - 1] == ckey_v[ckey_v.len() - 1]);
            }
            assert(wf_node(Node::ShortNode(merged)));
            assert(node_map(child) == prefixed(ckey_v, node_map(*merged.val)));
            lemma_prefixed_concat(skey, ckey_v, node_map(*merged.val));
            assert(node_map(Node::ShortNode(merged)) == prefixed(skey, node_map(child)));
            if resolved(child) {
                assert(resolved(Node::ShortNode(merged)));
            }
            if cache_ok(child) {
                assert(cache_ok(*merged.val));
                assert(cache_ok(Node::ShortNode(merged)));
            }
        }
        *node = Node::ShortNode(merged);
    }

    /// Collapses a branch with a single surviving child at `pos` into a
    /// short node, resolving the child first if it is a hash reference.
    fn collapse_full(&self, node: &mut Node, pos: usize) -> (r: Result<(), TrieError>)
        requires
            (*old(node)) is FullNode,
            (*old(node))->FullNode_0.children@.len() == 17,
            wf_children((*old(node))->FullNode_0.children@, 17),
            forall|l: int| 0 <= l < 16 ==> !((#[trigger] (*old(node))->FullNode_0.children@[l])
                is ValueNode),
            (*old(node))->FullNode_0.children@[16] is ValueNode
                || (*old(node))->FullNode_0.children@[16] is Empty,
            pos < 17,
            !((*old(node))->FullNode_0.children@[pos as int] is Empty),
            forall|l: int| 0 <= l < 17 && l != pos ==> (
            #[trigger] (*old(node))->FullNode_0.children@[l]) is Empty,
        ensures
            wf_node(*final(node)),
            (*final(node)) is ShortNode,
            resolved(*old(node)) ==> r is Ok,
            r is Ok ==> (resolved(*old(node)) ==> {
                &&& resolved(*final(node))
                &&& node_map(*final(node)) == node_map(*old(node))
            }),
            (r is Ok && resolved(*old(node)) && cache_children_ok(
                (*old(node))->FullNode_0.children@,
                17,
            )) ==> cache_ok(*final(node)),
    {
        let ghost old_node = *node;
        let ghost old_children = old_node->FullNode_0.children@;
        proof {
            lemma_wf_children_index(old_children, 17, pos as int);
            lemma_children_map_single(old_children, pos as int);
        }
        let owned = take_node(node);
        let mut fo = match owned {
            Node::FullNode(fo) => fo,
            _ => {
                proof {
                    assert(false);
                }
                return Err(TrieError::Decode);
            },
        };
        let surviving_ref = child_mut(&mut fo.children, pos);
        let surviving = take_node(surviving_ref);
        let ghost surv = surviving;
        // which shape the collapse takes depends on the surviving child
        let result: ShortNode;
        match surviving {
            Node::ShortNode(cn) => {
                // merge by prepending the branch nibble to the child's key
                let mut merged_key: Vec<u8> = Vec::new();
                merged_key.push(pos as u8);
                let mut ckey = cn.key;
                let ghost ckey_v = ckey@;
                merged_key.append(&mut ckey);
                proof {
                    assert(merged_key@ == seq![pos as u8] + ckey_v);
                    assert(pos < 16) by {
                        if pos == 16 {
                            assert(old_children[16] is ValueNode || old_children[16] is Empty);
                        }
                    }
                    assert(is_valid_hex_key(merged_key@)) by {
                        assert(merged_key@[0] == pos as u8);
                        assert(forall|i: int| 0 <= i < ckey_v.len() ==> merged_key@[i + 1]
                            == ckey_v[i]);
                    }
                    assert(ckey_v.len() > 0);
                    assert(has_term_spec(merged_key@) == has_term_spec(ckey_v)) by {
                        assert(merged_key@[merged_key@.len() - 1] == ckey_v[ckey_v.len() - 1]);
                    }
                }
                let merged = ShortNode { key: merged_key, val: cn.val, flags: self.new_flag() };
                proof {
                    assert(wf_node(Node::ShortNode(merged)));
                    lemma_prefixed_concat(seq![pos as u8], ckey_v, node_map(*merged.val));
                    assert(node_map(Node::ShortNode(merged)) == prefixed(
                        seq![pos as u8],
                        node_map(surv),
                    ));
                }
                result = merged;
            },
            Node::ValueNode(v) => {
                // the branch's own value survives under the terminator
                let mut skey: Vec<u8> = Vec::new();
                skey.push(16);
                let ghost vview = v@;
                let vnode = Node::ValueNode(v);
                proof {
                    assert(pos == 16) by {
                        if pos < 16 {
                            assert(!(old_children[pos as int] is ValueNode));
                        }
                    }
                    assert(skey@ =~= seq![16u8]);
                    assert(wf_node(vnode));
                    assert(resolved(vnode));
                    assert(node_map(vnode) == Map::<Seq<u8>, Seq<u8>>::empty().insert(
                        Seq::empty(),
                        vview,
                    ));
                }
                let snode = ShortNode { key: skey, val: Box::new(vnode), flags: self.new_flag() };
                proof {
                    assert(has_term_spec(snode.key@));
                    assert(wf_node(Node::ShortNode(snode)));
                    assert(node_map(Node::ShortNode(snode)) == prefixed(
                        seq![pos as u8],
                        node_map(surv),
                    )) by {
                        lemma_prefixed_value(seq![16u8], vview);
                        lemma_prefixed_value(Seq::<u8>::empty(), vview);
                        lemma_prefixed_concat(seq![16u8], Seq::<u8>::empty(), node_map(surv));
                        assert(node_map(surv) == Map::<Seq<u8>, Seq<u8>>::empty().insert(
                            Seq::empty(),
                            vview,
                        ));
                    }
                }
                result = snode;
            },
            Node::FullNode(fn_child) => {
                let mut skey: Vec<u8> = Vec::new();
                skey.push(pos as u8);
                proof {
                    assert(pos < 16) by {
                        if pos == 16 {
                            assert(old_children[16] is ValueNode || old_children[16] is Empty);
                        }
                    }
                    assert(skey@ =~= seq![pos as u8]);
                }
                let snode = ShortNode {
                    key: skey,
                    val: Box::new(Node::FullNode(fn_child)),
                    flags: self.new_flag(),
                };
                proof {
                    assert(wf_node(Node::ShortNode(snode)));
                    assert(node_map(Node::ShortNode(snode)) == prefixed(
                        seq![pos as u8],
                        node_map(surv),
                    ));
                }
                result = snode;
            },
            Node::HashNode(hh) => {
                // resolve to see whether the child is a short node to merge
                // with; a branch keeps its hash reference
                proof {
                    assert(!resolved(old_children[pos as int]));
                    assert(!resolved(old_node)) by {
                        if resolved(old_node) {
                            lemma_resolved_children_index(old_children, 17, pos as int);
                        }
                    }
                    assert(pos < 16) by {
                        if pos == 16 {
                            assert(!(old_children[16] is HashNode));
                        }
                    }
                }
                let prefix: Vec<u8> = Vec::new();
                let loaded = match self.resolve_and_track(&hh, &prefix) {
                    Ok(n) => n,
                    Err(e) => {
                        // the data is unavailable: keep the reference under
                        // its nibble so the structure stays well-formed
                        let mut skey: Vec<u8> = Vec::new();
                        skey.push(pos as u8);
                        proof {
                            assert(skey@ =~= seq![pos as u8]);
                        }
                        let snode = ShortNode {
                            key: skey,
                            val: Box::new(Node::HashNode(hh)),
                            flags: self.new_flag(),
                        };
                        proof {
                            assert(wf_node(Node::ShortNode(snode))) by {
                                assert(wf_node(old_children[pos as int]));
                            }
                        }
                        *node = Node::ShortNode(snode);
                        return Err(e);
                    },
                };
                match loaded {
                    Node::ShortNode(cn) => {
                        let mut merged_key: Vec<u8> = Vec::new();
                        merged_key.push(pos as u8);
                        let mut ckey = cn.key;
                        let ghost ckey_v = ckey@;
                        merged_key.append(&mut ckey);
                        proof {
                            assert(merged_key@ == seq![pos as u8] + ckey_v);
                            assert(is_valid_hex_key(merged_key@)) by {
                                assert(merged_key@[0] == pos as u8);
                                assert(forall|i: int| 0 <= i < ckey_v.len() ==> merged_key@[i + 1]
                                    == ckey_v[i]);
                            }
                            assert(ckey_v.len() > 0);
                            assert(has_term_spec(merged_key@) == has_term_spec(ckey_v)) by {
                                assert(merged_key@[merged_key@.len() - 1] == ckey_v[ckey_v.len()
                                    - 1]);
                            }
                        }
                        let merged = ShortNode {
                            key: merged_key,
                            val: cn.val,
                            flags: self.new_flag(),
                        };
                        proof {
                            assert(wf_node(Node::ShortNode(merged)));
                        }
                        result = merged;
                    },
                    _ => {
                        // keep the original hash reference under the nibble
                        let mut skey: Vec<u8> = Vec::new();
                        skey.push(pos as u8);
                        proof {
                            assert(skey@ =~= seq![pos as u8]);
                        }
                        let snode = ShortNode {
                            key: skey,
                            val: Box::new(Node::HashNode(hh)),
                            flags: self.new_flag(),
                        };
                        proof {
                            assert(wf_node(Node::ShortNode(snode))) by {
                                assert(wf_node(old_children[pos as int]));
                            }
                        }
                        result = snode;
                    },
                }
            },
            Node::Empty => {
                proof {
                    assert(false);
                }
                return Err(TrieError::Decode);
            },
        }
        proof {
            if resolved(old_node) {
                assert(resolved(surv)) by {
                    lemma_resolved_children_index(old_children, 17, pos as int);
                }
                assert(resolved(Node::ShortNode(result)));
                assert(node_map(Node::ShortNode(result)) == node_map(old_node));
                if cache_children_ok(old_children, 17) {
                    lemma_cache_children_index(old_children, 17, pos as int);
                    assert(cache_ok(surv));
                    assert(cache_ok(*result.val)) by {
                        if surv is ShortNode {
                            assert(cache_ok(*surv->ShortNode_0.val));
                        }
                    }
                    assert(cache_ok(Node::ShortNode(result)));
                }
            }
        }
        *node = Node::ShortNode(result);
        Ok(())
    }
}

/// The root commitment a trie stands for: the digest of the canonical RLP
/// encoding of its root node, and the empty-string digest for an empty
/// trie. A root that is itself an unresolved reference keeps its digest.
pub open spec fn root_hash_spec(root: Option<Node>) -> Seq<u8> {
    match root {
        None => keccak256_of(seq![0x80u8]),
        Some(n) => match n {
            Node::Empty => keccak256_of(seq![0x80u8]),
            Node::HashNode(h) => h@,
            _ => keccak256_of(node_enc(n)),
        },
    }
}

/// Root determinism: the commitment of a well-formed, fully materialized
/// trie depends only on its final set of bindings, not on the order of the
/// insertions and deletions that produced it.
pub proof fn lemma_root_determinism<R1: Reader, R2: Reader>(t1: Trie<R1>, t2: Trie<R2>)
    requires
        t1.wf(),
        t2.wf(),
        t1.is_resolved(),
        t2.is_resolved(),
        t1.as_map() == t2.as_map(),
    ensures
        root_hash_spec(t1.root) == root_hash_spec(t2.root),
{
    match (t1.root, t2.root) {
        (Some(a), Some(b)) => {
            crate::trie::canonical::lemma_canonical_enc(a, b);
        },
        (Some(a), None) => {
            crate::trie::node::lemma_empty_map_is_empty(a);
            assert(false);
        },
        (None, Some(b)) => {
            crate::trie::node::lemma_empty_map_is_empty(b);
            assert(false);
        },
        (None, None) => {},
    }
}

/// Deep-equal roots stand for the same commitment: together with the
/// `same_root` clauses of `insert` and `delete`, inserting an identical
/// binding twice or deleting an absent key leaves the root hash unchanged.
pub proof fn lemma_same_root_hash(a: Option<Node>, b: Option<Node>)
    requires
        same_root(a, b),
    ensures
        root_hash_spec(a) == root_hash_spec(b),
{
    match (a, b) {
        (Some(x), Some(y)) => {
            crate::trie::hash::lemma_same_node_enc(x, y);
        },
        _ => {},
    }
}

/// A well-formed, fully materialized trie with no bindings commits to the
/// empty-root hash: after deleting every key, in any order, the root hash
/// returns to the empty trie's value.
pub proof fn lemma_empty_map_empty_hash<R: Reader>(t: Trie<R>)
    requires
        t.wf(),
        t.is_resolved(),
        t.as_map() == Map::<Seq<u8>, Seq<u8>>::empty(),
    ensures
        root_hash_spec(t.root) == keccak256_of(seq![0x80u8]),
{
    match t.root {
        Some(n) => {
            crate::trie::node::lemma_empty_map_is_empty(n);
        },
        None => {},
    }
}

/// Deep equality of optional roots.
pub open spec fn same_root(a: Option<Node>, b: Option<Node>) -> bool {
    match (a, b) {
        (Some(x), Some(y)) => same_node(x, y),
        (None, None) => true,
        _ => false,
    }
}

impl<R: Reader> Trie<R> {
    /// Inserts `value` under `key`. On a fully materialized trie this
    /// cannot fail, and afterwards the trie holds exactly the old bindings
    /// plus the new one; inserting an already-present identical value
    /// leaves the root — cached hashes included — untouched.
    pub fn insert(&mut self, key: &[u8], value: &[u8]) -> (r: Result<(), TrieError>)
        requires
            old(self).wf(),
            key@.len() * 2 + 1 <= usize::MAX,
        ensures
            final(self).wf(),
            final(self).reader == old(self).reader,
            final(self).owner == old(self).owner,
            old(self).is_resolved() ==> {
                &&& r is Ok
                &&& final(self).is_resolved()
                &&& final(self).as_map() == old(self).as_map().insert(
                    keybytes_to_hex_spec(key@),
                    value@,
                )
                &&& ((old(self).as_map().contains_key(keybytes_to_hex_spec(key@)) && old(
                    self,
                ).as_map()[keybytes_to_hex_spec(key@)] == value@) ==> same_root(
                    final(self).root,
                    old(self).root,
                ))
            },
            (old(self).is_resolved() && old(self).caches_valid()) ==> final(self).caches_valid(),
    {
        proof {
            crate::trie::encoding::lemma_keybytes_hex_valid(key@);
        }
        if self.unhashed < u64::MAX {
            self.unhashed = self.unhashed + 1;
        }
        let hex = keybytes_to_hex(key);
        self.tracer.on_insert(&hex);
        let mut tmp: Option<Node> = None;
        core::mem::swap(&mut self.root, &mut tmp);
        let ghost old_root = old(self).root;
        let mut node = match tmp {
            Some(n) => n,
            None => Node::Empty,
        };
        let ghost start = node;
        let res = self.insert_at(&mut node, hex, vstd::slice::slice_to_vec(value));
        proof {
            if old_root is None {
                assert(node_map(start) =~= Map::<Seq<u8>, Seq<u8>>::empty());
            }
        }
        self.root = Some(node);
        match res {
            Ok(_) => Ok(()),
            Err(e) => Err(e),
        }
    }

    /// Deletes the binding at `key`. On a fully materialized trie this
    /// cannot fail, and afterwards the trie holds exactly the old bindings
    /// except `key`; deleting an absent key leaves the root — cached hashes
    /// included — untouched.
    pub fn delete(&mut self, key: &[u8]) -> (r: Result<(), TrieError>)
        requires
            old(self).wf(),
            key@.len() * 2 + 1 <= usize::MAX,
        ensures
            final(self).wf(),
            final(self).reader == old(self).reader,
            final(self).owner == old(self).owner,
            old(self).is_resolved() ==> {
                &&& r is Ok
                &&& final(self).is_resolved()
                &&& final(self).as_map() == old(self).as_map().remove(keybytes_to_hex_spec(key@))
                &&& (!old(self).as_map().contains_key(keybytes_to_hex_spec(key@)) ==> same_root(
                    final(self).root,
                    old(self).root,
                ))
            },
            (old(self).is_resolved() && old(self).caches_valid()) ==> final(self).caches_valid(),
    {
        proof {
            crate::trie::encoding::lemma_keybytes_hex_valid(key@);
        }
        if self.unhashed < u64::MAX {
            self.unhashed = self.unhashed + 1;
        }
        let hex = keybytes_to_hex(key);
        self.tracer.on_delete(&hex);
        let mut tmp: Option<Node> = None;
        core::mem::swap(&mut self.root, &mut tmp);
        let ghost old_root = old(self).root;
        match tmp {
            None => {
                proof {
                    assert(node_map(Node::Empty) =~= Map::<Seq<u8>, Seq<u8>>::empty());
                    assert(old(self).as_map().remove(keybytes_to_hex_spec(key@)) =~= old(
                        self,
                    ).as_map());
                }
                Ok(())
            },
            Some(n) => {
                let mut node = n;
                let res = self.delete_at(&mut node, hex);
                let node_is_empty: bool;
                match &node {
                    Node::Empty => {
                        node_is_empty = true;
                    },
                    _ => {
                        node_is_empty = false;
                    },
                }
                if node_is_empty {
                    proof {
                        assert(node is Empty ==> node_map(node) =~= Map::<
                            Seq<u8>,
                            Seq<u8>,
                        >::empty());
                    }
                    self.root = None;
                } else {
                    self.root = Some(node);
                }
                match res {
                    Ok(dirty) => {
                        proof {
                            if resolved(n) && !dirty {
                                assert(!(node is Empty));
                            }
                        }
                        Ok(())
                    },
                    Err(e) => Err(e),
                }
            },
        }
    }

    /// Looks up the value stored under `key`. Missing keys give `None`;
    /// on a fully materialized trie the result is exactly the binding of
    /// the trie's map, and nothing is modified. A failure to load a
    /// referenced subtree also gives `None`.
    pub fn get(&mut self, key: &[u8]) -> (r: Option<Vec<u8>>)
        requires
            old(self).wf(),
            key@.len() * 2 + 1 <= usize::MAX,
        ensures
            final(self).wf(),
            final(self).reader == old(self).reader,
            final(self).owner == old(self).owner,
            old(self).is_resolved() ==> {
                &&& final(self).is_resolved()
                &&& same_root(final(self).root, old(self).root)
                &&& final(self).as_map() == old(self).as_map()
                &&& (match r {
                    Some(bytes) => old(self).as_map().contains_key(keybytes_to_hex_spec(key@))
                        && bytes@ == old(self).as_map()[keybytes_to_hex_spec(key@)],
                    None => !old(self).as_map().contains_key(keybytes_to_hex_spec(key@)),
                })
            },
            (old(self).is_resolved() && old(self).caches_valid()) ==> final(self).caches_valid(),
            r matches Some(bytes) ==> (final(self).as_map().contains_key(
                keybytes_to_hex_spec(key@),
            ) && bytes@ == final(self).as_map()[keybytes_to_hex_spec(key@)]),
    {
        proof {
            crate::trie::encoding::lemma_keybytes_hex_valid(key@);
        }
        let hex = keybytes_to_hex(key);
        let mut tmp: Option<Node> = None;
        core::mem::swap(&mut self.root, &mut tmp);
        match tmp {
            None => {
                proof {
                    assert(!Map::<Seq<u8>, Seq<u8>>::empty().contains_key(
                        keybytes_to_hex_spec(key@),
                    ));
                }
                None
            },
            Some(n) => {
                let mut node = n;
                let ghost n0 = node;
                let res = self.get_at(&mut node, hex);
                proof {
                    if resolved(n0) && cache_ok(n0) {
                        lemma_same_node_cache_ok(node, n0);
                    }
                }
                self.root = Some(node);
                match res {
                    Ok(v) => v,
                    Err(_) => None,
                }
            },
        }
    }

    /// Whether the root can be hashed: its memoized hashes are valid and
    /// its encodings leave room for the encoder's accounting.
    pub open spec fn hash_ready(self) -> bool {
        self.caches_valid() && self.enc_budget()
    }

    /// Returns the root hash of the trie: the Keccak-256 digest of the
    /// canonical encoding of its contents, with the empty-string digest
    /// for an empty trie. The reader is never consulted; hashing works on
    /// the in-memory structure alone. The cached copy stored back keeps
    /// the trie's bindings, so a repeated call returns the same hash.
    pub fn hash(&mut self) -> (r: Vec<u8>)
        requires
            old(self).wf(),
            old(self).hash_ready(),
        ensures
            r@.len() == 32,
            r@ == root_hash_spec(old(self).root),
            final(self).wf(),
            final(self).hash_ready(),
            final(self).reader == old(self).reader,
            final(self).owner == old(self).owner,
            final(self).as_map() == old(self).as_map(),
            old(self).is_resolved() ==> final(self).is_resolved(),
            root_hash_spec(final(self).root) == root_hash_spec(old(self).root),
            final(self).caches_valid(),
    {
        let mut tmp: Option<Node> = None;
        core::mem::swap(&mut self.root, &mut tmp);
        match tmp {
            None => {
                let hasher = Hasher::new();
                let data: Vec<u8> = vec![0x80u8];
                proof {
                    assert(data@ =~= seq![0x80u8]);
                }
                hasher.hash_data(&data)
            },
            Some(n) => {
                let is_plain: bool;
                match &n {
                    Node::Empty => {
                        is_plain = true;
                    },
                    Node::HashNode(_) => {
                        is_plain = true;
                    },
                    _ => {
                        is_plain = false;
                    },
                }
                if is_plain {
                    let r: Vec<u8>;
                    match &n {
                        Node::HashNode(h) => {
                            r = clone_bytes(h);
                        },
                        _ => {
                            let hasher = Hasher::new();
                            let data: Vec<u8> = vec![0x80u8];
                            proof {
                                assert(data@ =~= seq![0x80u8]);
                            }
                            r = hasher.hash_data(&data);
                        },
                    }
                    self.root = Some(n);
                    return r;
                }
                let mut hasher = Hasher::new();
                let (hashed, cached) = hasher.hash(n, true);
                self.root = Some(cached);
                match hashed {
                    Node::HashNode(h) => h,
                    _ => {
                        proof {
                            assert(false);
                        }
                        vstd::pervasive::unreached()
                    },
                }
            },
        }
    }

    /// Resets the trie to the empty state.
    pub fn reset(&mut self)
        ensures
            final(self).wf(),
            final(self).is_resolved(),
            final(self).as_map() == Map::<Seq<u8>, Seq<u8>>::empty(),
            final(self).root is None,
            final(self).reader == old(self).reader,
            final(self).owner@ == Seq::new(32, |i: int| 0u8),
            final(self).unhashed == 0,
            !final(self).committed,
            final(self).caches_valid(),
    {
        self.root = None;
        self.owner = crate::trie::types::zero_hash();
        self.unhashed = 0;
        self.committed = false;
    }
}

/// A root hash that names the empty trie: the canonical empty-root digest,
/// or all-zero for "uninitialized".
pub open spec fn trivial_root(h: Seq<u8>) -> bool {
    h == crate::trie::types::empty_root_hash_spec() || (forall|i: int|
        0 <= i < h.len() ==> #[trigger] h[i] == 0)
}

/// Creates a trie for the given identifier over the read-only database,
/// resolving the root node when the identifier names a non-empty trie.
pub fn new<D: Database>(id: Id, db: &D) -> (r: Result<Trie<D::Rd>, TrieError>)
    ensures
        r matches Ok(t) ==> t.wf(),
        r matches Ok(t) ==> t.owner@ == id.owner@,
        r matches Ok(t) ==> (t.root is None <==> trivial_root(id.root@)),
        r matches Ok(t) ==> (t.root matches Some(n) ==> (n is ShortNode || n is FullNode)
            && crate::trie::canonical::stored_form(n) && crate::trie::canonical::no_empty_values(
            n,
        ) && (crate::trie::node::memo_of(n) matches Some(h) && h@ == id.root@)),
        !trivial_root(id.root@) && id.root@.len() != 32 ==> r is Err,
        (trivial_root(id.root@) && trivial_root(id.state_root@)) ==> (r matches Ok(t)
            && t.root is None && t.as_map() == Map::<Seq<u8>, Seq<u8>>::empty()
            && t.is_resolved() && t.caches_valid()),
{
    let reader = match new_trie_reader(&id.state_root, &id.owner, db) {
        Ok(reader) => reader,
        Err(e) => {
            return Err(TrieError::MissingNode(e));
        },
    };
    let mut trie = Trie {
        owner: id.owner,
        reader,
        tracer: Tracer::new(),
        root: None,
        committed: false,
        unhashed: 0,
    };
    let empty_root = empty_root_hash();
    if !is_zero_hash(id.root.as_slice()) && !bytes_equal(
        id.root.as_slice(),
        empty_root.as_slice(),
    ) {
        if id.root.len() != HASH_LENGTH {
            return Err(TrieError::Decode);
        }
        let prefix: Vec<u8> = Vec::new();
        let root_node = match trie.resolve_and_track(&id.root, &prefix) {
            Ok(n) => n,
            Err(e) => {
                return Err(e);
            },
        };
        trie.root = Some(root_node);
    }
    Ok(trie)
}

/// A shortcut to create an empty trie.
pub fn new_empty<D: Database>(db: &D) -> (t: Trie<D::Rd>)
    ensures
        t.wf(),
        t.is_resolved(),
        t.as_map() == Map::<Seq<u8>, Seq<u8>>::empty(),
        t.root is None,
        t.caches_valid(),
{
    let id = crate::trie::trie_id::trie_id(empty_root_hash());
    proof {
        assert(id.root@ == crate::trie::types::empty_root_hash_spec());
        assert(id.state_root@ == crate::trie::types::empty_root_hash_spec());
        assert(trivial_root(id.root@) && trivial_root(id.state_root@));
    }
    match new(id, db) {
        Ok(t) => t,
        Err(_) => {
            proof {
                assert(false);
            }
            vstd::pervasive::unreached()
        },
    }
}

/// All-empty slots count zero.
proof fn lemma_count_all_empty(cs: Seq<Node>, i: int)
    requires
        i <= cs.len(),
        forall|j: int| 0 <= j < i ==> (#[trigger] cs[j]) is Empty,
    ensures
        count_nonempty(cs, i) == 0,
    decreases i,
{
    if i > 0 {
        lemma_count_all_empty(cs, i - 1);
    }
}

} // verus!
