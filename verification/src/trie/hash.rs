//! The hashing pipeline: a post-order collapse of the trie that serializes
//! each node, replaces large sub-encodings by their 32-byte Keccak-256
//! digest, and returns alongside it a cached copy whose structure is intact
//! and whose memoized hashes are set.

use vstd::prelude::*;

use sha3::{Digest, Keccak256};

use crate::rlp::model::string_enc;
use crate::rlp::rlp_encoder::RlpEncoder;
use crate::trie::encoding::{hex_to_compact, hex_to_compact_spec, is_valid_hex_key};
use crate::trie::node::{
    child_mut, children_map, clone_bytes, clone_hash_opt, count_nonempty, hash_opt_matches,
    lemma_children_map_congruent, lemma_resolved_children_build, lemma_resolved_children_index,
    lemma_wf_children_build, lemma_wf_children_index, node_map, resolved, resolved_children,
    same_children, same_node, take_node, wf_children, wf_node, FullNode, Node, NodeFlag,
    ShortNode,
};
use crate::trie::node_encoder::{
    arity_children, enc_children, enc_plain, full_arity_ok, lemma_arity_children_build,
    lemma_arity_children_index,
};

verus! {

/// The Keccak-256 digest of a byte sequence, named but not defined: the
/// contracts pin only that it is a function of the input bytes.
pub uninterp spec fn keccak256_of(data: Seq<u8>) -> Seq<u8>;

/// Relies on sha3's `Keccak256`: the digest is a pure function of the
/// input bytes, 32 bytes long.
#[verifier::external_body]
fn keccak256(data: &[u8]) -> (r: Vec<u8>)
    ensures
        r@ == keccak256_of(data@),
        r@.len() == 32,
{
    Keccak256::digest(data).to_vec()
}

/// The canonical encoding of an in-memory node: keys become compact, and a
/// child whose own encoding reaches 32 bytes is replaced by its digest.
pub open spec fn node_enc(n: Node) -> Seq<u8>
    decreases n, 18int,
{
    match n {
        Node::Empty => seq![0x80u8],
        Node::HashNode(h) => string_enc(h@),
        Node::ValueNode(v) => string_enc(v@),
        Node::ShortNode(sn) => crate::rlp::model::list_enc(
            string_enc(hex_to_compact_spec(sn.key@)) + node_ref(*sn.val),
        ),
        Node::FullNode(f) => crate::rlp::model::list_enc(node_children_enc(f.children@, 17)),
    }
}

/// How a child is embedded in its parent's encoding: inline when small,
/// else as the string of its digest.
pub open spec fn node_ref(n: Node) -> Seq<u8>
    decreases n, 19int,
{
    match n {
        Node::ShortNode(_) | Node::FullNode(_) => if node_enc(n).len() < 32 {
            node_enc(n)
        } else {
            string_enc(keccak256_of(node_enc(n)))
        },
        _ => node_enc(n),
    }
}

/// The concatenated references of the first `i` children.
pub open spec fn node_children_enc(cs: Seq<Node>, i: int) -> Seq<u8>
    decreases cs, i,
{
    if i <= 0 || i > cs.len() {
        Seq::empty()
    } else {
        node_children_enc(cs, i - 1) + node_ref(cs[i - 1])
    }
}

/// A cached hash is valid when it is the digest of the node's current
/// canonical encoding, and that encoding is large enough to be referenced
/// by hash.
pub open spec fn cache_valid(flags: NodeFlag, n: Node) -> bool {
    flags.hash matches Some(h) ==> (h@ == keccak256_of(node_enc(n)) && h@.len() == 32 && node_enc(
        n,
    ).len() >= 32)
}

/// Every memoized hash below the node is valid.
pub open spec fn cache_ok(n: Node) -> bool
    decreases n, 18int,
{
    match n {
        Node::ShortNode(sn) => cache_valid(sn.flags, n) && cache_ok(*sn.val),
        Node::FullNode(f) => cache_valid(f.flags, n) && cache_children_ok(f.children@, 17),
        _ => true,
    }
}

/// The first `i` children have valid caches.
pub open spec fn cache_children_ok(cs: Seq<Node>, i: int) -> bool
    decreases cs, i,
{
    if i <= 0 || i > cs.len() {
        true
    } else {
        cache_children_ok(cs, i - 1) && cache_ok(cs[i - 1])
    }
}

/// Pointwise access to `cache_children_ok`.
pub proof fn lemma_cache_children_index(cs: Seq<Node>, i: int, j: int)
    requires
        cache_children_ok(cs, i),
        0 <= j < i <= cs.len(),
    ensures
        cache_ok(cs[j]),
    decreases i,
{
    if j < i - 1 {
        lemma_cache_children_index(cs, i - 1, j);
    }
}

/// Builds `cache_children_ok` from pointwise facts.
pub proof fn lemma_cache_children_build(cs: Seq<Node>, i: int)
    requires
        0 <= i <= cs.len(),
        forall|j: int| 0 <= j < i ==> cache_ok(#[trigger] cs[j]),
    ensures
        cache_children_ok(cs, i),
    decreases i,
{
    if i > 0 {
        lemma_cache_children_build(cs, i - 1);
    }
}

/// Machine bound for hashing: every encoding below the node leaves room
/// for the encoder's accounting.
pub open spec fn enc_bounded(n: Node) -> bool
    decreases n, 18int,
{
    &&& 18 * node_enc(n).len() + 200 <= usize::MAX
    &&& match n {
        Node::ShortNode(sn) => enc_bounded(*sn.val),
        Node::FullNode(f) => enc_bounded_children(f.children@, 17),
        _ => true,
    }
}

/// The first `i` children are bounded.
pub open spec fn enc_bounded_children(cs: Seq<Node>, i: int) -> bool
    decreases cs, i,
{
    if i <= 0 || i > cs.len() {
        true
    } else {
        enc_bounded_children(cs, i - 1) && enc_bounded(cs[i - 1])
    }
}

/// Pointwise access to `enc_bounded_children`.
pub proof fn lemma_enc_bounded_children_index(cs: Seq<Node>, i: int, j: int)
    requires
        enc_bounded_children(cs, i),
        0 <= j < i <= cs.len(),
    ensures
        enc_bounded(cs[j]),
    decreases i,
{
    if j < i - 1 {
        lemma_enc_bounded_children_index(cs, i - 1, j);
    }
}

/// Builds `enc_bounded_children` from pointwise facts.
pub proof fn lemma_enc_bounded_children_build(cs: Seq<Node>, i: int)
    requires
        0 <= i <= cs.len(),
        forall|j: int| 0 <= j < i ==> enc_bounded(#[trigger] cs[j]),
    ensures
        enc_bounded_children(cs, i),
    decreases i,
{
    if i > 0 {
        lemma_enc_bounded_children_build(cs, i - 1);
    }
}

/// Same outer variant.
pub open spec fn kind_eq(a: Node, b: Node) -> bool {
    &&& (a is Empty <==> b is Empty)
    &&& (a is ValueNode <==> b is ValueNode)
    &&& (a is HashNode <==> b is HashNode)
    &&& (a is ShortNode <==> b is ShortNode)
    &&& (a is FullNode <==> b is FullNode)
}

/// Children with equal encodings and variants make equal reference
/// concatenations.
pub proof fn lemma_node_children_enc_congruent(cs1: Seq<Node>, cs2: Seq<Node>, i: int)
    requires
        cs1.len() == cs2.len(),
        0 <= i <= cs1.len(),
        forall|j: int| 0 <= j < i ==> node_enc(#[trigger] cs1[j]) == node_enc(cs2[j]) && kind_eq(
            cs1[j],
            cs2[j],
        ),
    ensures
        node_children_enc(cs1, i) == node_children_enc(cs2, i),
    decreases i,
{
    if i > 0 {
        lemma_node_children_enc_congruent(cs1, cs2, i - 1);
        assert(node_ref(cs1[i - 1]) == node_ref(cs2[i - 1]));
    }
}

/// Collapsed children encode to exactly the original children's references.
pub proof fn lemma_children_enc_pointwise(cs1: Seq<Node>, cs2: Seq<Node>, i: int)
    requires
        cs1.len() == cs2.len(),
        0 <= i <= cs1.len(),
        forall|j: int| 0 <= j < i ==> enc_plain(#[trigger] cs1[j]) == node_ref(cs2[j]),
    ensures
        enc_children(cs1, i) == node_children_enc(cs2, i),
    decreases i,
{
    if i > 0 {
        lemma_children_enc_pointwise(cs1, cs2, i - 1);
    }
}

/// Children of matching emptiness count the same.
pub proof fn lemma_count_nonempty_congruent(cs1: Seq<Node>, cs2: Seq<Node>, i: int)
    requires
        cs1.len() == cs2.len(),
        0 <= i <= cs1.len(),
        forall|j: int| 0 <= j < i ==> ((#[trigger] cs1[j]) is Empty <==> cs2[j] is Empty),
    ensures
        count_nonempty(cs1, i) == count_nonempty(cs2, i),
    decreases i,
{
    if i > 0 {
        lemma_count_nonempty_congruent(cs1, cs2, i - 1);
    }
}


/// The canonical encoding does not read the caching flags: two nodes equal
/// down to byte contents and structure encode identically. Together with
/// the structural contracts this closes the idempotence laws: an insert of
/// an already-present binding or a delete of an absent key leaves a root
/// that hashes to the same commitment.
#[verifier::rlimit(60)]
pub proof fn lemma_same_node_enc(a: Node, b: Node)
    requires
        same_node(a, b),
    ensures
        node_enc(a) == node_enc(b),
    decreases a, 18int,
{
    match a {
        Node::ShortNode(s1) => {
            let s2 = b->ShortNode_0;
            let c1 = *s1.val;
            let c2 = *s2.val;
            lemma_same_node_enc(c1, c2);
            assert(same_node(c1, c2));
            assert((c1 is ShortNode <==> c2 is ShortNode) && (c1 is FullNode <==> c2
                is FullNode)) by {
                match c1 {
                    Node::ShortNode(_) => {},
                    Node::FullNode(_) => {},
                    _ => {},
                }
            }
            assert(node_ref(c1) == node_ref(c2));
            assert(s1.key@ == s2.key@);
        },
        Node::FullNode(f1) => {
            let f2 = b->FullNode_0;
            lemma_same_children_enc(f1.children@, f2.children@, 17);
        },
        _ => {},
    }
}

/// Pairwise deep-equal children make equal reference concatenations.
proof fn lemma_same_children_enc(cs1: Seq<Node>, cs2: Seq<Node>, i: int)
    requires
        cs1.len() == cs2.len(),
        same_children(cs1, cs2, i),
    ensures
        node_children_enc(cs1, i) == node_children_enc(cs2, i),
    decreases cs1, i,
{
    if 0 < i <= cs1.len() {
        lemma_same_children_enc(cs1, cs2, i - 1);
        lemma_same_node_enc(cs1[i - 1], cs2[i - 1]);
        assert(node_ref(cs1[i - 1]) == node_ref(cs2[i - 1]));
    }
}

/// Deep-equal nodes have equally valid caches.
pub proof fn lemma_same_node_cache_ok(a: Node, b: Node)
    requires
        same_node(a, b),
        cache_ok(b),
    ensures
        cache_ok(a),
    decreases a, 18int,
{
    lemma_same_node_enc(a, b);
    match a {
        Node::ShortNode(s1) => {
            let s2 = b->ShortNode_0;
            lemma_same_node_cache_ok(*s1.val, *s2.val);
            assert(cache_valid(s1.flags, a)) by {
                assert(crate::trie::node::hash_opt_matches(s1.flags.hash, s2.flags.hash));
                assert(cache_valid(s2.flags, b));
            }
        },
        Node::FullNode(f1) => {
            let f2 = b->FullNode_0;
            assert(cache_valid(f1.flags, a)) by {
                assert(crate::trie::node::hash_opt_matches(f1.flags.hash, f2.flags.hash));
                assert(cache_valid(f2.flags, b));
            }
            lemma_same_children_cache_ok(f1.children@, f2.children@, 17);
        },
        _ => {},
    }
}

/// Pairwise deep-equal children have equally valid caches.
proof fn lemma_same_children_cache_ok(cs1: Seq<Node>, cs2: Seq<Node>, i: int)
    requires
        cs1.len() == cs2.len(),
        same_children(cs1, cs2, i),
        cache_children_ok(cs2, i),
    ensures
        cache_children_ok(cs1, i),
    decreases cs1, i,
{
    if 0 < i <= cs1.len() {
        lemma_same_children_cache_ok(cs1, cs2, i - 1);
        lemma_same_node_cache_ok(cs1[i - 1], cs2[i - 1]);
    }
}

/// The hasher: owns the encoder buffer and the scratch buffer for one
/// hashing pass.
pub struct Hasher {
    rlp_enc: RlpEncoder,
    temp: Vec<u8>,
}

impl Hasher {
    /// The hasher is between operations: the buffer is empty.
    pub closed spec fn inv(self) -> bool {
        &&& self.rlp_enc.buffer.inv()
        &&& self.rlp_enc.buffer.depth() == 0
        &&& self.rlp_enc.buffer.used() == 0
        &&& self.rlp_enc.buffer.top() == Seq::<u8>::empty()
    }

    /// The encoder is between lists, ready to be drained.
    pub closed spec fn encoder_idle(self) -> bool {
        self.rlp_enc.buffer.inv() && self.rlp_enc.buffer.depth() == 0
    }

    /// The bytes the encoder has assembled and not yet drained.
    pub closed spec fn pending(self) -> Seq<u8> {
        self.rlp_enc.buffer.out()
    }

    /// The bytes of the last drained encoding.
    pub closed spec fn output(self) -> Seq<u8> {
        self.temp@
    }

    /// A fresh hasher.
    pub fn new() -> (r: Hasher)
        ensures
            r.inv(),
    {
        Hasher { rlp_enc: RlpEncoder::new(), temp: Vec::new() }
    }

    /// Serializes and hashes arbitrary bytes.
    pub fn hash_data(&self, data: &Vec<u8>) -> (r: Vec<u8>)
        ensures
            r@ == keccak256_of(data@),
            r@.len() == 32,
    {
        keccak256(data.as_slice())
    }

    /// Drains the encoder's output into the scratch buffer and resets the
    /// encoder for the next node.
    pub fn encode_bytes(&mut self)
        requires
            old(self).encoder_idle(),
        ensures
            final(self).output() == old(self).pending(),
            final(self).inv(),
    {
        let mut t: Vec<u8> = Vec::new();
        core::mem::swap(&mut self.temp, &mut t);
        self.rlp_enc.append_to_bytes(&mut t);
        self.temp = t;
        self.rlp_enc.reset();
    }

    /// Collapses a node and prepares its replacement: the first result is
    /// the collapsed form (compact keys, large children replaced by their
    /// digests, and the whole node replaced by its digest when large or
    /// forced); the second is a copy with structure intact and the digest
    /// memoized in its flags.
    pub fn hash(&mut self, node: Node, force: bool) -> (r: (Node, Node))
        requires
            old(self).inv(),
            wf_node(node),
            cache_ok(node),
            enc_bounded(node),
        ensures
            final(self).inv(),
            kind_eq(r.1, node),
            wf_node(r.1),
            node_map(r.1) == node_map(node),
            node_enc(r.1) == node_enc(node),
            resolved(node) ==> resolved(r.1),
            cache_ok(r.1),
            enc_bounded(r.1),
            full_arity_ok(r.0),
            !force ==> enc_plain(r.0) == node_ref(node),
            force ==> ((node is ShortNode || node is FullNode) ==> (r.0 is HashNode
                && r.0->HashNode_0@ == keccak256_of(node_enc(node)))),
            node is HashNode ==> (r.0 is HashNode && r.0->HashNode_0@ == node->HashNode_0@),
            r.0 is HashNode ==> r.0->HashNode_0@.len() == 32,
            // childless variants come back as they were
            node is ValueNode ==> (r.0 is ValueNode && r.0->ValueNode_0@ == node->ValueNode_0@
                && r.1 == node),
            node is Empty ==> (r.0 is Empty && r.1 == node),
            node is HashNode ==> r.1 == node,
            // the digest is memoized exactly when the node collapsed to it
            (!force && (node is ShortNode || node is FullNode)) ==> (match r.0 {
                Node::HashNode(h) => crate::trie::node::memo_of(r.1) matches Some(m) && m@ == h@,
                _ => crate::trie::node::memo_of(r.1) is None,
            }),
            (force && (node is ShortNode || node is FullNode)) ==> (crate::trie::node::memo_of(
                r.1,
            ) is None || (crate::trie::node::memo_of(r.1) matches Some(m) && m@
                == r.0->HashNode_0@)),
        decreases node, 2int,
    {
        // a still-valid memoized hash short-circuits the whole subtree
        let cached_hash: Option<Vec<u8>>;
        match &node {
            Node::ShortNode(sn) => {
                cached_hash = clone_hash_opt(&sn.flags.hash);
                proof {
                    assert(cache_valid(sn.flags, node));
                }
            },
            Node::FullNode(f) => {
                cached_hash = clone_hash_opt(&f.flags.hash);
                proof {
                    assert(cache_valid(f.flags, node));
                }
            },
            _ => {
                cached_hash = None;
            },
        }
        if let Some(h) = cached_hash {
            proof {
                assert(h@ == keccak256_of(node_enc(node)) && node_enc(node).len() >= 32);
            }
            return (Node::HashNode(h), node);
        }
        match node {
            Node::FullNode(n) => {
                let ghost orig = n;
                let (collapsed, mut cached) = self.hash_full_node_children(n);
                let hashed = self.full_node_to_hash(collapsed, force);
                // memoize the digest on the cached copy, so an unchanged
                // subtree hashes in constant time next round
                if !force {
                    match &hashed {
                        Node::HashNode(hn) => {
                            cached.flags.hash = Some(clone_bytes(hn));
                        },
                        _ => {},
                    }
                }
                proof {
                    assert(cache_ok(Node::FullNode(cached)));
                }
                (hashed, Node::FullNode(cached))
            },
            Node::ShortNode(n) => {
                let ghost orig = n;
                let (collapsed, mut cached) = self.hash_short_node_children(n);
                let hashed = self.short_node_to_hash(collapsed, force);
                if !force {
                    match &hashed {
                        Node::HashNode(hn) => {
                            cached.flags.hash = Some(clone_bytes(hn));
                        },
                        _ => {},
                    }
                }
                proof {
                    assert(cache_ok(Node::ShortNode(cached)));
                }
                (hashed, Node::ShortNode(cached))
            },
            Node::HashNode(h) => {
                // hash nodes have no children and stand for themselves
                let a = clone_bytes(&h);
                (Node::HashNode(a), Node::HashNode(h))
            },
            Node::ValueNode(v) => {
                let a = clone_bytes(&v);
                (Node::ValueNode(a), Node::ValueNode(v))
            },
            Node::Empty => (Node::Empty, Node::Empty),
        }
    }

    /// Recursively hashes the sixteen children of a branch (and copies the
    /// value slot), producing the collapsed and the cached child arrays.
    #[verifier::loop_isolation(false)]
    pub fn hash_full_node_children(&mut self, node: FullNode) -> (r: (FullNode, FullNode))
        requires
            old(self).inv(),
            wf_node(Node::FullNode(node)),
            cache_ok(Node::FullNode(node)),
            enc_bounded(Node::FullNode(node)),
            node.flags.hash is None,
        ensures
            final(self).inv(),
            full_arity_ok(Node::FullNode(r.0)),
            enc_plain(Node::FullNode(r.0)) == node_enc(Node::FullNode(node)),
            wf_node(Node::FullNode(r.1)),
            kind_eq(Node::FullNode(r.1), Node::FullNode(node)),
            node_map(Node::FullNode(r.1)) == node_map(Node::FullNode(node)),
            node_enc(Node::FullNode(r.1)) == node_enc(Node::FullNode(node)),
            resolved(Node::FullNode(node)) ==> resolved(Node::FullNode(r.1)),
            cache_ok(Node::FullNode(r.1)),
            enc_bounded(Node::FullNode(r.1)),
            r.1.flags.hash is None,
            r.0.children@.len() == 17,
            r.1.children@.len() == 17,
            r.1.flags == node.flags,
            forall|j: int| 0 <= j < 17 ==> enc_plain(#[trigger] r.0.children@[j]) == node_ref(
                node.children@[j],
            ),
            forall|j: int| 0 <= j < 17 ==> kind_eq(#[trigger] r.1.children@[j], node.children@[j])
                && node_map(r.1.children@[j]) == node_map(node.children@[j]) && node_enc(
                r.1.children@[j],
            ) == node_enc(node.children@[j]),
            forall|j: int| 0 <= j < 17 ==> ((#[trigger] node.children@[j]) is Empty ==> (
            r.0.children@[j] is Empty && r.1.children@[j] is Empty)),
            forall|j: int| 0 <= j < 17 ==> (((#[trigger] node.children@[j]) is ValueNode
                || node.children@[j] is HashNode || node.children@[j] is Empty)
                ==> r.1.children@[j] == node.children@[j]),
        decreases Node::FullNode(node), 1int,
    {
        let ghost whole = Node::FullNode(node);
        let ghost orig_children = node.children@;
        proof {
            assert(decreases_to!(whole => whole->FullNode_0));
            assert(whole->FullNode_0 == node);
        }
        let FullNode { mut children, flags } = node;
        let mut col: Vec<Node> = Vec::new();
        let mut cach: Vec<Node> = Vec::new();
        let mut i: usize = 0;
        while i < 17
            invariant
                self.inv(),
                i <= 17,
                children@.len() == 17,
                col@.len() == i,
                cach@.len() == i,
                orig_children.len() == 17,
                forall|j: int| i <= j < 17 ==> children@[j] == orig_children[j],
                wf_children(orig_children, 17),
                cache_children_ok(orig_children, 17),
                enc_bounded_children(orig_children, 17),
                forall|j: int| 0 <= j < i ==> enc_plain(#[trigger] col@[j]) == node_ref(
                    orig_children[j],
                ) && full_arity_ok(col@[j]),
                forall|j: int| 0 <= j < i ==> kind_eq(#[trigger] cach@[j], orig_children[j])
                    && wf_node(cach@[j]) && node_map(cach@[j]) == node_map(orig_children[j])
                    && node_enc(cach@[j]) == node_enc(orig_children[j]) && cache_ok(cach@[j])
                    && enc_bounded(cach@[j]) && (resolved(orig_children[j]) ==> resolved(
                    cach@[j],
                )),
                forall|j: int| 0 <= j < i ==> ((#[trigger] orig_children[j]) is Empty ==> (
                col@[j] is Empty && cach@[j] is Empty)),
                forall|j: int| 0 <= j < i ==> (((#[trigger] orig_children[j]) is ValueNode
                    || orig_children[j] is HashNode || orig_children[j] is Empty) ==> cach@[j]
                    == orig_children[j]),
            decreases 17 - i,
        {
            proof {
                lemma_wf_children_index(orig_children, 17, i as int);
                lemma_cache_children_index(orig_children, 17, i as int);
                lemma_enc_bounded_children_index(orig_children, 17, i as int);
                assert(decreases_to!(whole => whole->FullNode_0));
                assert(decreases_to!(node => node.children));
                assert(decreases_to!(node.children => node.children@));
                assert(decreases_to!(node.children@ => node.children@[i as int]));
                assert(node.children@[i as int] == orig_children[i as int]);
            }
            let slot = child_mut(&mut children, i);
            let child = take_node(slot);
            proof {
                assert(child == orig_children[i as int]);
            }
            let (h, c) = self.hash(child, false);
            col.push(h);
            cach.push(c);
            i = i + 1;
        }
        let collapsed = FullNode { children: col, flags: NodeFlag { hash: None, dirty: false } };
        let cached = FullNode { children: cach, flags };
        proof {
            let csc = collapsed.children@;
            let csh = cached.children@;
            // the collapsed branch encodes to the original's references
            lemma_children_enc_pointwise(csc, orig_children, 17);
            assert(enc_plain(Node::FullNode(collapsed)) == node_enc(whole));
            assert(full_arity_ok(Node::FullNode(collapsed))) by {
                lemma_arity_children_build(csc, 17);
            }
            // the cached branch keeps everything the contracts speak of
            assert(wf_node(Node::FullNode(cached))) by {
                lemma_wf_children_build(csh, 17);
                lemma_count_nonempty_congruent(csh, orig_children, 17);
                assert forall|j: int| 0 <= j < 16 implies !((#[trigger] csh[j]) is ValueNode) by {
                    assert(!(orig_children[j] is ValueNode));
                }
                assert(csh[16] is ValueNode || csh[16] is Empty);
            }
            lemma_children_map_congruent(csh, orig_children, 17);
            assert(node_map(Node::FullNode(cached)) == node_map(whole));
            lemma_node_children_enc_congruent(csh, orig_children, 17);
            assert(node_enc(Node::FullNode(cached)) == node_enc(whole));
            if resolved(whole) {
                assert forall|j: int| 0 <= j < 17 implies resolved(#[trigger] csh[j]) by {
                    lemma_resolved_children_index(orig_children, 17, j);
                }
                lemma_resolved_children_build(csh, 17);
            }
            assert(cache_ok(Node::FullNode(cached))) by {
                lemma_cache_children_build(csh, 17);
                assert(cached.flags.hash is None);
            }
            assert(enc_bounded(Node::FullNode(cached))) by {
                lemma_enc_bounded_children_build(csh, 17);
            }
        }
        (collapsed, cached)
    }

    /// Converts the key of a short node to compact form in the collapsed
    /// copy and recursively hashes the child.
    pub fn hash_short_node_children(&mut self, node: ShortNode) -> (r: (ShortNode, ShortNode))
        requires
            old(self).inv(),
            wf_node(Node::ShortNode(node)),
            cache_ok(Node::ShortNode(node)),
            enc_bounded(Node::ShortNode(node)),
            node.flags.hash is None,
        ensures
            final(self).inv(),
            full_arity_ok(Node::ShortNode(r.0)),
            enc_plain(Node::ShortNode(r.0)) == node_enc(Node::ShortNode(node)),
            wf_node(Node::ShortNode(r.1)),
            kind_eq(Node::ShortNode(r.1), Node::ShortNode(node)),
            node_map(Node::ShortNode(r.1)) == node_map(Node::ShortNode(node)),
            node_enc(Node::ShortNode(r.1)) == node_enc(Node::ShortNode(node)),
            resolved(Node::ShortNode(node)) ==> resolved(Node::ShortNode(r.1)),
            cache_ok(Node::ShortNode(r.1)),
            enc_bounded(Node::ShortNode(r.1)),
            r.1.flags.hash is None,
            r.1.key@ == node.key@,
            r.1.flags == node.flags,
            r.0.key@ == crate::trie::encoding::hex_to_compact_spec(node.key@),
            kind_eq(*r.1.val, *node.val),
            ((*node.val) is ValueNode || (*node.val) is HashNode) ==> *r.1.val == *node.val,
        decreases Node::ShortNode(node), 1int,
    {
        let ghost whole = Node::ShortNode(node);
        let ShortNode { key, val, flags } = node;
        let compact_key = hex_to_compact(key.as_slice());
        proof {
            assert(decreases_to!(whole => whole->ShortNode_0));
            assert(whole->ShortNode_0 == node);
            assert(decreases_to!(node => *node.val));
        }
        let (h, c) = self.hash(*val, false);
        let collapsed = ShortNode {
            key: compact_key,
            val: Box::new(h),
            flags: NodeFlag { hash: None, dirty: false },
        };
        let cached = ShortNode { key, val: Box::new(c), flags };
        proof {
            assert(enc_plain(Node::ShortNode(collapsed)) == node_enc(whole));
            assert(wf_node(Node::ShortNode(cached)));
            assert(node_map(Node::ShortNode(cached)) == node_map(whole)) by {
                assert(node_map(Node::ShortNode(cached)) == crate::trie::node::prefixed(
                    cached.key@,
                    node_map(*cached.val),
                ));
            }
            assert(node_enc(Node::ShortNode(cached)) == node_enc(whole));
            assert(cache_ok(Node::ShortNode(cached)));
            assert(enc_bounded(Node::ShortNode(cached)));
        }
        (collapsed, cached)
    }

    /// Serializes a collapsed short node; the result is the node itself
    /// when its encoding stays under 32 bytes and hashing is not forced,
    /// else its digest.
    pub fn short_node_to_hash(&mut self, node: ShortNode, force: bool) -> (r: Node)
        requires
            old(self).inv(),
            full_arity_ok(Node::ShortNode(node)),
            18 * enc_plain(Node::ShortNode(node)).len() + 100 <= usize::MAX,
        ensures
            final(self).inv(),
            ({
                let e = enc_plain(Node::ShortNode(node));
                if e.len() < 32 && !force {
                    r == Node::ShortNode(node)
                } else {
                    r is HashNode && r->HashNode_0@ == keccak256_of(e) && r->HashNode_0@.len()
                        == 32
                }
            }),
    {
        node.encode(&mut self.rlp_enc);
        self.encode_bytes();
        proof {
            assert(self.temp@ == enc_plain(Node::ShortNode(node)));
        }
        if self.temp.len() < 32 && !force {
            return Node::ShortNode(node);
        }
        Node::HashNode(self.hash_data(&self.temp))
    }

    /// Serializes a collapsed full node; the result is the node itself
    /// when its encoding stays under 32 bytes and hashing is not forced,
    /// else its digest.
    pub fn full_node_to_hash(&mut self, node: FullNode, force: bool) -> (r: Node)
        requires
            old(self).inv(),
            full_arity_ok(Node::FullNode(node)),
            18 * enc_plain(Node::FullNode(node)).len() + 100 <= usize::MAX,
        ensures
            final(self).inv(),
            ({
                let e = enc_plain(Node::FullNode(node));
                if e.len() < 32 && !force {
                    r == Node::FullNode(node)
                } else {
                    r is HashNode && r->HashNode_0@ == keccak256_of(e) && r->HashNode_0@.len()
                        == 32
                }
            }),
    {
        node.encode(&mut self.rlp_enc);
        self.encode_bytes();
        proof {
            assert(self.temp@ == enc_plain(Node::FullNode(node)));
        }
        if self.temp.len() < 32 && !force {
            return Node::FullNode(node);
        }
        Node::HashNode(self.hash_data(&self.temp))
    }
}

} // verus!
