//! The trie's node model: the tagged union of node variants, its abstract
//! view as a map from hex-nibble paths to values, and the structural
//! well-formedness that every operation preserves.

use vstd::prelude::*;

use crate::rlp::decode::{count_values, split_list, split_string, Kind};
use crate::trie::encoding::{compact_to_hex, has_term, has_term_spec, is_valid_hex_key};

verus! {

/// A trie node. `HashNode` is a lazy reference to a subtree stored in the
/// database; `ValueNode` is a leaf payload at the end of a terminated path.
/// Nodes move by value through the structural algorithms; only byte payloads
/// are ever copied.
pub enum Node {
    FullNode(FullNode),
    ShortNode(ShortNode),
    HashNode(Vec<u8>),
    ValueNode(Vec<u8>),
    Empty,
}

/// An extension or leaf: a shared key prefix in hex-nibble form over one
/// child. A leaf has a terminated key and a `ValueNode` child.
pub struct ShortNode {
    pub key: Vec<u8>,
    pub val: Box<Node>,
    pub flags: NodeFlag,
}

/// A branch: sixteen children indexed by nibble, and slot 16 for the value
/// of a key ending at this node.
pub struct FullNode {
    pub children: Vec<Node>,
    pub flags: NodeFlag,
}

/// Caching metadata: the memoized hash of the node's canonical encoding (if
/// still valid) and whether the node has changes pending a commit.
pub struct NodeFlag {
    pub hash: Option<Vec<u8>>,
    pub dirty: bool,
}

impl FullNode {
    /// The cached hash and dirty bit.
    pub fn cache(&self) -> (r: (Option<Vec<u8>>, bool))
        ensures
            hash_opt_matches(r.0, self.flags.hash),
            r.1 == self.flags.dirty,
    {
        (clone_hash_opt(&self.flags.hash), self.flags.dirty)
    }
}

impl ShortNode {
    /// The cached hash and dirty bit.
    pub fn cache(&self) -> (r: (Option<Vec<u8>>, bool))
        ensures
            hash_opt_matches(r.0, self.flags.hash),
            r.1 == self.flags.dirty,
    {
        (clone_hash_opt(&self.flags.hash), self.flags.dirty)
    }
}

/// The memoized hash of a short or full node; childless variants carry
/// none.
pub open spec fn memo_of(n: Node) -> Option<Vec<u8>> {
    match n {
        Node::ShortNode(sn) => sn.flags.hash,
        Node::FullNode(f) => f.flags.hash,
        _ => None,
    }
}

/// The dirty bit of a short or full node; childless variants carry none.
pub open spec fn dirty_of(n: Node) -> bool {
    match n {
        Node::ShortNode(sn) => sn.flags.dirty,
        Node::FullNode(f) => f.flags.dirty,
        _ => false,
    }
}

/// Whether two optional hashes hold the same bytes.
pub open spec fn hash_opt_matches(a: Option<Vec<u8>>, b: Option<Vec<u8>>) -> bool {
    match (a, b) {
        (Some(x), Some(y)) => x@ == y@,
        (None, None) => true,
        _ => false,
    }
}

/// Copies an optional hash, preserving its bytes.
pub fn clone_hash_opt(h: &Option<Vec<u8>>) -> (r: Option<Vec<u8>>)
    ensures
        hash_opt_matches(r, *h),
{
    match h {
        Some(v) => Some(clone_bytes(v)),
        None => None,
    }
}

/// Copies a byte vector.
pub fn clone_bytes(v: &Vec<u8>) -> (r: Vec<u8>)
    ensures
        r@ == v@,
{
    let r = crate::trie::encoding::suffix(v.as_slice(), 0);
    proof {
        assert(r@ =~= v@);
    }
    r
}

/// The map a node stands for: each terminated hex path that remains below
/// this node, mapped to its value. A `HashNode` stands for an unresolved
/// subtree and contributes nothing; map-level contracts therefore speak of
/// resolved nodes.
pub open spec fn node_map(n: Node) -> Map<Seq<u8>, Seq<u8>>
    decreases n, 18int,
{
    match n {
        Node::Empty => Map::empty(),
        Node::HashNode(_) => Map::empty(),
        Node::ValueNode(v) => Map::empty().insert(Seq::empty(), v@),
        Node::ShortNode(sn) => prefixed(sn.key@, node_map(*sn.val)),
        Node::FullNode(f) => children_map(f.children@, 17),
    }
}

/// The union of the maps of the first `i` children, each behind its nibble.
pub open spec fn children_map(cs: Seq<Node>, i: int) -> Map<Seq<u8>, Seq<u8>>
    decreases cs, i,
{
    if i <= 0 || i > cs.len() {
        Map::empty()
    } else {
        children_map(cs, i - 1).union_prefer_right(
            prefixed(seq![(i - 1) as u8], node_map(cs[i - 1])),
        )
    }
}

/// The map `m` with every key extended by the prefix `p`.
pub open spec fn prefixed(p: Seq<u8>, m: Map<Seq<u8>, Seq<u8>>) -> Map<Seq<u8>, Seq<u8>> {
    Map::new(
        |k: Seq<u8>|
            k.len() >= p.len() && k.take(p.len() as int) == p && m.contains_key(
                k.skip(p.len() as int),
            ),
        |k: Seq<u8>| m[k.skip(p.len() as int)],
    )
}

/// No unresolved references anywhere below this node.
pub open spec fn resolved(n: Node) -> bool
    decreases n, 18int,
{
    match n {
        Node::Empty => true,
        Node::HashNode(_) => false,
        Node::ValueNode(_) => true,
        Node::ShortNode(sn) => resolved(*sn.val),
        Node::FullNode(f) => resolved_children(f.children@, 17),
    }
}

/// All of the first `i` children are resolved.
pub open spec fn resolved_children(cs: Seq<Node>, i: int) -> bool
    decreases cs, i,
{
    if i <= 0 || i > cs.len() {
        true
    } else {
        resolved_children(cs, i - 1) && resolved(cs[i - 1])
    }
}

/// Number of non-`Empty` children among the first `i`.
pub open spec fn count_nonempty(cs: Seq<Node>, i: int) -> int
    decreases i,
{
    if i <= 0 {
        0
    } else {
        count_nonempty(cs, i - 1) + (if cs[i - 1] is Empty {
            0int
        } else {
            1int
        })
    }
}

/// Structural well-formedness, which every public operation preserves:
/// - a `Short` key is a nonempty, well-formed hex key; a terminated key has
///   a `ValueNode` child (a leaf), an unterminated one a `FullNode` or
///   `HashNode` child (no `Short` over `Short`, the minimal form);
/// - a `Full` node has 17 slots, no `ValueNode` among the sixteen nibble
///   slots, only a `ValueNode` or `Empty` in slot 16, and at least two
///   non-empty slots (no redundant branch);
/// - a `HashNode` carries a 32-byte digest.
pub open spec fn wf_node(n: Node) -> bool
    decreases n, 18int,
{
    match n {
        Node::Empty => true,
        Node::HashNode(h) => h@.len() == 32,
        Node::ValueNode(v) => true,
        Node::ShortNode(sn) => {
            &&& sn.key@.len() > 0
            &&& is_valid_hex_key(sn.key@)
            &&& wf_node(*sn.val)
            &&& if has_term_spec(sn.key@) {
                (*sn.val) is ValueNode
            } else {
                (*sn.val) is FullNode || (*sn.val) is HashNode
            }
        },
        Node::FullNode(f) => {
            &&& f.children@.len() == 17
            &&& wf_children(f.children@, 17)
            &&& (forall|j: int| 0 <= j < 16 ==> !(#[trigger] f.children@[j] is ValueNode))
            &&& (f.children@[16] is ValueNode || f.children@[16] is Empty)
            &&& count_nonempty(f.children@, 17) >= 2
        },
    }
}

/// The first `i` children are well-formed.
pub open spec fn wf_children(cs: Seq<Node>, i: int) -> bool
    decreases cs, i,
{
    if i <= 0 || i > cs.len() {
        true
    } else {
        wf_children(cs, i - 1) && wf_node(cs[i - 1])
    }
}

/// Pointwise access to `wf_children`.
pub proof fn lemma_wf_children_index(cs: Seq<Node>, i: int, j: int)
    requires
        wf_children(cs, i),
        0 <= j < i <= cs.len(),
    ensures
        wf_node(cs[j]),
    decreases i,
{
    if j < i - 1 {
        lemma_wf_children_index(cs, i - 1, j);
    }
}

/// `wf_children` from pointwise well-formedness.
pub proof fn lemma_wf_children_build(cs: Seq<Node>, i: int)
    requires
        0 <= i <= cs.len(),
        forall|j: int| 0 <= j < i ==> wf_node(#[trigger] cs[j]),
    ensures
        wf_children(cs, i),
    decreases i,
{
    if i > 0 {
        lemma_wf_children_build(cs, i - 1);
    }
}

/// Pointwise access to `resolved_children`.
pub proof fn lemma_resolved_children_index(cs: Seq<Node>, i: int, j: int)
    requires
        resolved_children(cs, i),
        0 <= j < i <= cs.len(),
    ensures
        resolved(cs[j]),
    decreases i,
{
    if j < i - 1 {
        lemma_resolved_children_index(cs, i - 1, j);
    }
}

/// `resolved_children` from pointwise resolvedness.
pub proof fn lemma_resolved_children_build(cs: Seq<Node>, i: int)
    requires
        0 <= i <= cs.len(),
        forall|j: int| 0 <= j < i ==> resolved(#[trigger] cs[j]),
    ensures
        resolved_children(cs, i),
    decreases i,
{
    if i > 0 {
        lemma_resolved_children_build(cs, i - 1);
    }
}

/// What `children_map` holds: exactly the keys that start with a nibble
/// below `i` and continue into that child's map.
pub proof fn lemma_children_map_contains(cs: Seq<Node>, i: int, k: Seq<u8>)
    requires
        0 <= i <= cs.len(),
        cs.len() <= 17,
    ensures
        children_map(cs, i).contains_key(k) <==> (k.len() > 0 && k[0] < i && node_map(
            cs[k[0] as int],
        ).contains_key(k.skip(1))),
        children_map(cs, i).contains_key(k) ==> children_map(cs, i)[k] == node_map(
            cs[k[0] as int],
        )[k.skip(1)],
    decreases i,
{
    if i > 0 {
        lemma_children_map_contains(cs, i - 1, k);
        let p = seq![(i - 1) as u8];
        let pm = prefixed(p, node_map(cs[i - 1]));
        if k.len() > 0 && k[0] == i - 1 && node_map(cs[i - 1]).contains_key(k.skip(1)) {
            assert(k.take(1) =~= p);
            assert(pm.contains_key(k));
            assert(pm[k] == node_map(cs[i - 1])[k.skip(1)]);
        }
        if pm.contains_key(k) {
            assert(k.take(1) == p);
            assert(k[0] == p[0]);
        }
    }
}

/// Replacing child `j` by a node whose map is the old child's map with one
/// binding inserted inserts that binding, behind nibble `j`, in the branch.
pub proof fn lemma_children_map_update_insert(cs: Seq<Node>, j: int, c: Node, t: Seq<u8>, v: Seq<u8>)
    requires
        cs.len() == 17,
        0 <= j < 17,
        node_map(c) == node_map(cs[j]).insert(t, v),
    ensures
        children_map(cs.update(j, c), 17) == children_map(cs, 17).insert(seq![j as u8] + t, v),
{
    let cs2 = cs.update(j, c);
    let lhs = children_map(cs2, 17);
    let rhs = children_map(cs, 17).insert(seq![j as u8] + t, v);
    let jk = seq![j as u8] + t;
    assert(jk[0] == j as u8 && jk.skip(1) =~= t);
    assert forall|k: Seq<u8>| #[trigger] lhs.contains_key(k) <==> rhs.contains_key(k) by {
        lemma_children_map_contains(cs2, 17, k);
        lemma_children_map_contains(cs, 17, k);
        if k.len() > 0 && k[0] < 17 {
            if k[0] == j {
                assert(node_map(cs2[j]).contains_key(k.skip(1)) <==> (k.skip(1) == t || node_map(
                    cs[j],
                ).contains_key(k.skip(1))));
                if k.skip(1) == t {
                    assert(k =~= jk);
                }
                if k == jk {
                    assert(k.skip(1) =~= t);
                }
            } else {
                assert(cs2[k[0] as int] == cs[k[0] as int]);
                if k == jk {
                    assert(k[0] == j);
                }
            }
        }
    }
    assert forall|k: Seq<u8>| lhs.contains_key(k) && rhs.contains_key(k) implies #[trigger] lhs[k]
        == #[trigger] rhs[k] by {
        lemma_children_map_contains(cs2, 17, k);
        lemma_children_map_contains(cs, 17, k);
        if k == jk {
            assert(k.skip(1) =~= t);
            assert(lhs[k] == node_map(cs2[j])[t]);
            assert(node_map(cs2[j])[t] == v);
        } else if k[0] == j {
            assert(k.skip(1) != t) by {
                if k.skip(1) == t {
                    assert(k =~= jk);
                }
            }
            assert(lhs[k] == node_map(cs2[j])[k.skip(1)]);
            assert(node_map(cs2[j])[k.skip(1)] == node_map(cs[j])[k.skip(1)]);
        } else {
            assert(cs2[k[0] as int] == cs[k[0] as int]);
        }
    }
    assert(lhs =~= rhs);
}

/// Replacing child `j` by a node whose map is the old child's map with one
/// key removed removes that key, behind nibble `j`, from the branch.
pub proof fn lemma_children_map_update_remove(cs: Seq<Node>, j: int, c: Node, t: Seq<u8>)
    requires
        cs.len() == 17,
        0 <= j < 17,
        node_map(c) == node_map(cs[j]).remove(t),
    ensures
        children_map(cs.update(j, c), 17) == children_map(cs, 17).remove(seq![j as u8] + t),
{
    let cs2 = cs.update(j, c);
    let lhs = children_map(cs2, 17);
    let rhs = children_map(cs, 17).remove(seq![j as u8] + t);
    let jk = seq![j as u8] + t;
    assert(jk[0] == j as u8 && jk.skip(1) =~= t);
    assert forall|k: Seq<u8>| #[trigger] lhs.contains_key(k) <==> rhs.contains_key(k) by {
        lemma_children_map_contains(cs2, 17, k);
        lemma_children_map_contains(cs, 17, k);
        if k.len() > 0 && k[0] < 17 {
            if k[0] == j {
                if k.skip(1) == t {
                    assert(k =~= jk);
                }
                if k == jk {
                    assert(k.skip(1) =~= t);
                }
            } else {
                assert(cs2[k[0] as int] == cs[k[0] as int]);
                if k == jk {
                    assert(k[0] == j);
                }
            }
        }
    }
    assert forall|k: Seq<u8>| lhs.contains_key(k) && rhs.contains_key(k) implies #[trigger] lhs[k]
        == #[trigger] rhs[k] by {
        lemma_children_map_contains(cs2, 17, k);
        lemma_children_map_contains(cs, 17, k);
        if k[0] == j {
            assert(k.skip(1) != t) by {
                if k.skip(1) == t {
                    assert(k =~= jk);
                }
            }
            assert(lhs[k] == node_map(cs2[j])[k.skip(1)]);
            assert(node_map(cs2[j])[k.skip(1)] == node_map(cs[j])[k.skip(1)]);
        } else {
            assert(cs2[k[0] as int] == cs[k[0] as int]);
        }
    }
    assert(lhs =~= rhs);
}

/// Prefixing preserves the submap order.
pub proof fn lemma_prefixed_mono(p: Seq<u8>, m1: Map<Seq<u8>, Seq<u8>>, m2: Map<Seq<u8>, Seq<u8>>)
    requires
        m1.submap_of(m2),
    ensures
        prefixed(p, m1).submap_of(prefixed(p, m2)),
{
}

/// Children with pointwise growing maps give a branch with a growing map.
pub proof fn lemma_children_map_mono(cs1: Seq<Node>, cs2: Seq<Node>, i: int)
    requires
        cs1.len() == cs2.len() <= 17,
        0 <= i <= cs1.len(),
        forall|j: int| 0 <= j < i ==> node_map(#[trigger] cs1[j]).submap_of(node_map(cs2[j])),
    ensures
        children_map(cs1, i).submap_of(children_map(cs2, i)),
{
    let m1 = children_map(cs1, i);
    let m2 = children_map(cs2, i);
    assert forall|k: Seq<u8>| #[trigger] m1.dom().contains(k) implies m2.dom().contains(k)
        && m1[k] == m2[k] by {
        lemma_children_map_contains(cs1, i, k);
        lemma_children_map_contains(cs2, i, k);
        assert(node_map(cs1[k[0] as int]).submap_of(node_map(cs2[k[0] as int])));
    }
}

/// Children with pointwise equal maps give branches with equal maps.
pub proof fn lemma_children_map_congruent(cs1: Seq<Node>, cs2: Seq<Node>, i: int)
    requires
        cs1.len() == cs2.len() <= 17,
        0 <= i <= cs1.len(),
        forall|j: int| 0 <= j < i ==> node_map(#[trigger] cs1[j]) == node_map(cs2[j]),
    ensures
        children_map(cs1, i) == children_map(cs2, i),
    decreases i,
{
    if i > 0 {
        lemma_children_map_congruent(cs1, cs2, i - 1);
    }
}

/// A branch whose only non-empty child is `j` has that child's map behind
/// nibble `j`.
pub proof fn lemma_children_map_single(cs: Seq<Node>, j: int)
    requires
        cs.len() == 17,
        0 <= j < 17,
        forall|l: int| 0 <= l < 17 && l != j ==> (#[trigger] cs[l]) is Empty,
    ensures
        children_map(cs, 17) == prefixed(seq![j as u8], node_map(cs[j])),
{
    let lhs = children_map(cs, 17);
    let rhs = prefixed(seq![j as u8], node_map(cs[j]));
    assert forall|k: Seq<u8>| #[trigger] lhs.contains_key(k) <==> rhs.contains_key(k) by {
        lemma_children_map_contains(cs, 17, k);
        if k.len() > 0 && k[0] < 17 && node_map(cs[k[0] as int]).contains_key(k.skip(1)) {
            if k[0] != j {
                assert(cs[k[0] as int] is Empty);
                assert(node_map(cs[k[0] as int]) =~= Map::<Seq<u8>, Seq<u8>>::empty());
            } else {
                assert(k.take(1) =~= seq![j as u8]);
            }
        }
        if rhs.contains_key(k) {
            assert(seq![j as u8].len() == 1);
            assert(k.len() >= 1);
            assert(k.take(1) == seq![j as u8]);
            assert(k.take(1)[0] == k[0]);
            assert(k[0] == j as u8);
        }
    }
    assert forall|k: Seq<u8>| lhs.contains_key(k) && rhs.contains_key(k) implies #[trigger] lhs[k]
        == #[trigger] rhs[k] by {
        lemma_children_map_contains(cs, 17, k);
        assert(seq![j as u8].len() == 1);
        assert(k.take(1) == seq![j as u8]);
        assert(k.take(1)[0] == k[0]);
        assert(k[0] == j);
        assert(rhs[k] == node_map(cs[j])[k.skip(1)]);
    }
    assert(lhs =~= rhs);
}

/// Prefixing with the empty prefix changes nothing.
pub proof fn lemma_prefixed_nil(m: Map<Seq<u8>, Seq<u8>>)
    ensures
        prefixed(Seq::empty(), m) == m,
{
    let lhs = prefixed(Seq::<u8>::empty(), m);
    assert forall|k: Seq<u8>| #[trigger] lhs.contains_key(k) <==> m.contains_key(k) by {
        assert(k.take(0) =~= Seq::<u8>::empty());
        assert(k.skip(0) =~= k);
    }
    assert forall|k: Seq<u8>| lhs.contains_key(k) && m.contains_key(k) implies #[trigger] lhs[k]
        == #[trigger] m[k] by {
        assert(k.skip(0) =~= k);
    }
    assert(lhs =~= m);
}

/// Consecutive prefixes concatenate.
pub proof fn lemma_prefixed_concat(p: Seq<u8>, q: Seq<u8>, m: Map<Seq<u8>, Seq<u8>>)
    ensures
        prefixed(p, prefixed(q, m)) == prefixed(p + q, m),
{
    let lhs = prefixed(p, prefixed(q, m));
    let rhs = prefixed(p + q, m);
    let pl = p.len() as int;
    let ql = q.len() as int;
    assert forall|k: Seq<u8>| #[trigger] lhs.contains_key(k) <==> rhs.contains_key(k) by {
        if k.len() >= pl + ql {
            assert(k.skip(pl).take(ql) =~= k.subrange(pl, pl + ql));
            assert(k.skip(pl).skip(ql) =~= k.skip(pl + ql));
            if k.take(pl) == p && k.subrange(pl, pl + ql) == q {
                assert(k.take(pl + ql) =~= p + q);
            }
            if k.take(pl + ql) == p + q {
                assert(k.take(pl) =~= (p + q).take(pl));
                assert((p + q).take(pl) =~= p);
                assert(k.subrange(pl, pl + ql) =~= (p + q).skip(pl));
                assert((p + q).skip(pl) =~= q);
            }
        }
    }
    assert forall|k: Seq<u8>| lhs.contains_key(k) && rhs.contains_key(k) implies #[trigger] lhs[k]
        == #[trigger] rhs[k] by {
        assert(k.skip(pl).skip(ql) =~= k.skip(pl + ql));
    }
    assert(lhs =~= rhs);
}

/// Prefixing distributes over insertion.
pub proof fn lemma_prefixed_insert(p: Seq<u8>, m: Map<Seq<u8>, Seq<u8>>, t: Seq<u8>, v: Seq<u8>)
    ensures
        prefixed(p, m.insert(t, v)) == prefixed(p, m).insert(p + t, v),
{
    let lhs = prefixed(p, m.insert(t, v));
    let rhs = prefixed(p, m).insert(p + t, v);
    let pl = p.len() as int;
    assert((p + t).take(pl) =~= p);
    assert((p + t).skip(pl) =~= t);
    assert forall|k: Seq<u8>| #[trigger] lhs.contains_key(k) <==> rhs.contains_key(k) by {
        if k.len() >= pl && k.take(pl) == p {
            if k.skip(pl) == t {
                assert(k =~= p + t);
            }
            if k == p + t {
                assert(k.skip(pl) =~= t);
            }
        }
    }
    assert forall|k: Seq<u8>| lhs.contains_key(k) && rhs.contains_key(k) implies #[trigger] lhs[k]
        == #[trigger] rhs[k] by {
        if k == p + t {
            assert(k.skip(pl) =~= t);
        } else {
            if k.skip(pl) == t && k.take(pl) == p {
                assert(k =~= p + t);
            }
        }
    }
    assert(lhs =~= rhs);
}

/// Prefixing distributes over removal.
pub proof fn lemma_prefixed_remove(p: Seq<u8>, m: Map<Seq<u8>, Seq<u8>>, t: Seq<u8>)
    ensures
        prefixed(p, m.remove(t)) == prefixed(p, m).remove(p + t),
{
    let lhs = prefixed(p, m.remove(t));
    let rhs = prefixed(p, m).remove(p + t);
    let pl = p.len() as int;
    assert((p + t).take(pl) =~= p);
    assert((p + t).skip(pl) =~= t);
    assert forall|k: Seq<u8>| #[trigger] lhs.contains_key(k) <==> rhs.contains_key(k) by {
        if k.len() >= pl && k.take(pl) == p {
            if k.skip(pl) == t {
                assert(k =~= p + t);
            }
            if k == p + t {
                assert(k.skip(pl) =~= t);
            }
        }
    }
    assert forall|k: Seq<u8>| lhs.contains_key(k) && rhs.contains_key(k) implies #[trigger] lhs[k]
        == #[trigger] rhs[k] by {
    }
    assert(lhs =~= rhs);
}

/// A single-entry map behind a prefix is a single-entry map on the longer key.
pub proof fn lemma_prefixed_value(p: Seq<u8>, v: Seq<u8>)
    ensures
        prefixed(p, Map::<Seq<u8>, Seq<u8>>::empty().insert(Seq::empty(), v))
            == Map::<Seq<u8>, Seq<u8>>::empty().insert(p, v),
{
    let single = Map::<Seq<u8>, Seq<u8>>::empty().insert(Seq::<u8>::empty(), v);
    let lhs = prefixed(p, single);
    let rhs = Map::<Seq<u8>, Seq<u8>>::empty().insert(p, v);
    let pl = p.len() as int;
    assert forall|k: Seq<u8>| #[trigger] lhs.contains_key(k) <==> rhs.contains_key(k) by {
        if k.len() >= pl && k.take(pl) == p && single.contains_key(k.skip(pl)) {
            assert(k.skip(pl) =~= Seq::<u8>::empty());
            assert(k =~= k.take(pl));
        }
        if k == p {
            assert(k.take(pl) =~= p);
            assert(k.skip(pl) =~= Seq::<u8>::empty());
        }
    }
    assert forall|k: Seq<u8>| lhs.contains_key(k) && rhs.contains_key(k) implies #[trigger] lhs[k]
        == #[trigger] rhs[k] by {
        assert(k.skip(pl) =~= Seq::<u8>::empty());
    }
    assert(lhs =~= rhs);
}

/// A well-formed, resolved, non-empty node holds at least one binding.
pub proof fn lemma_wf_nonempty(n: Node)
    requires
        wf_node(n),
        resolved(n),
        !(n is Empty),
        !(n is HashNode),
    ensures
        exists|k: Seq<u8>| node_map(n).contains_key(k),
    decreases n, 18int,
{
    match n {
        Node::ValueNode(v) => {
            assert(node_map(n).contains_key(Seq::<u8>::empty()));
        },
        Node::ShortNode(sn) => {
            assert(!(*sn.val is Empty) && !(*sn.val is HashNode)) by {
                assert(resolved(*sn.val));
            }
            lemma_wf_nonempty(*sn.val);
            let t = choose|t: Seq<u8>| node_map(*sn.val).contains_key(t);
            let k = sn.key@ + t;
            assert(k.take(sn.key@.len() as int) =~= sn.key@);
            assert(k.skip(sn.key@.len() as int) =~= t);
            assert(node_map(n).contains_key(k));
        },
        Node::FullNode(f) => {
            let cs = f.children@;
            assert(count_nonempty(cs, 17) >= 2);
            let j = choose|j: int| 0 <= j < 17 && !(#[trigger] cs[j] is Empty);
            assert(exists|j: int| 0 <= j < 17 && !(#[trigger] cs[j] is Empty)) by {
                lemma_count_nonempty_exists(cs, 17);
            }
            let j2 = choose|j: int| 0 <= j < 17 && !(#[trigger] cs[j] is Empty);
            lemma_wf_children_index(cs, 17, j2);
            lemma_resolved_children_index(cs, 17, j2);
            assert(!(cs[j2] is HashNode));
            lemma_wf_nonempty(cs[j2]);
            let t = choose|t: Seq<u8>| node_map(cs[j2]).contains_key(t);
            let k = seq![j2 as u8] + t;
            lemma_children_map_contains(cs, 17, k);
            assert(k[0] == j2 as u8 && k.skip(1) =~= t);
            assert(node_map(n).contains_key(k));
        },
        _ => {},
    }
}

/// A positive non-empty count yields a non-empty child.
pub proof fn lemma_count_nonempty_exists(cs: Seq<Node>, i: int)
    requires
        count_nonempty(cs, i) >= 1,
        i <= cs.len(),
    ensures
        exists|j: int| 0 <= j < i && !(#[trigger] cs[j] is Empty),
    decreases i,
{
    if i > 0 {
        if cs[i - 1] is Empty {
            lemma_count_nonempty_exists(cs, i - 1);
        } else {
            assert(0 <= i - 1 < i && !(cs[i - 1] is Empty));
        }
    }
}

/// Deep structural equality of nodes, down to byte contents and caching
/// flags. Distinct heap values can satisfy it; everything the trie's
/// contracts speak of is invariant under it.
pub open spec fn same_node(a: Node, b: Node) -> bool
    decreases a, 18int,
{
    match (a, b) {
        (Node::Empty, Node::Empty) => true,
        (Node::HashNode(h1), Node::HashNode(h2)) => h1@ == h2@,
        (Node::ValueNode(v1), Node::ValueNode(v2)) => v1@ == v2@,
        (Node::ShortNode(s1), Node::ShortNode(s2)) => s1.key@ == s2.key@ && same_flags(
            s1.flags,
            s2.flags,
        ) && same_node(*s1.val, *s2.val),
        (Node::FullNode(f1), Node::FullNode(f2)) => f1.children@.len() == f2.children@.len()
            && same_flags(f1.flags, f2.flags) && same_children(f1.children@, f2.children@, 17),
        _ => false,
    }
}

/// The first `i` children are pairwise deep-equal.
pub open spec fn same_children(cs1: Seq<Node>, cs2: Seq<Node>, i: int) -> bool
    decreases cs1, i,
{
    if i <= 0 || i > cs1.len() || cs1.len() != cs2.len() {
        true
    } else {
        same_children(cs1, cs2, i - 1) && same_node(cs1[i - 1], cs2[i - 1])
    }
}

/// Flags with the same cached hash bytes and dirty bit.
pub open spec fn same_flags(a: NodeFlag, b: NodeFlag) -> bool {
    a.dirty == b.dirty && hash_opt_matches(a.hash, b.hash)
}

/// Deep equality is reflexive.
pub proof fn lemma_same_node_refl(n: Node)
    ensures
        same_node(n, n),
    decreases n, 18int,
{
    match n {
        Node::ShortNode(sn) => {
            lemma_same_node_refl(*sn.val);
        },
        Node::FullNode(f) => {
            lemma_same_children_refl(f.children@, 17);
        },
        _ => {},
    }
}

/// Pairwise deep equality of a sequence with itself.
pub proof fn lemma_same_children_refl(cs: Seq<Node>, i: int)
    ensures
        same_children(cs, cs, i),
    decreases cs, i,
{
    if 0 < i <= cs.len() {
        lemma_same_children_refl(cs, i - 1);
        lemma_same_node_refl(cs[i - 1]);
    }
}

/// Builds `same_children` from pointwise deep equality.
pub proof fn lemma_same_children_build(cs1: Seq<Node>, cs2: Seq<Node>, i: int)
    requires
        cs1.len() == cs2.len(),
        forall|j: int| 0 <= j < i ==> same_node(#[trigger] cs1[j], cs2[j]),
    ensures
        same_children(cs1, cs2, i),
    decreases i,
{
    if 0 < i <= cs1.len() {
        lemma_same_children_build(cs1, cs2, i - 1);
    }
}

/// Updating one child changes the non-empty count by that slot's change.
pub proof fn lemma_count_nonempty_update(cs: Seq<Node>, j: int, c: Node, i: int)
    requires
        0 <= j < cs.len(),
        i <= cs.len(),
    ensures
        count_nonempty(cs.update(j, c), i) == count_nonempty(cs, i) + (if j < i {
            (if c is Empty { 0int } else { 1int }) - (if cs[j] is Empty { 0int } else { 1int })
        } else {
            0int
        }),
    decreases i,
{
    if i > 0 {
        lemma_count_nonempty_update(cs, j, c, i - 1);
        if i - 1 == j {
            assert(cs.update(j, c)[i - 1] == c);
        } else {
            assert(cs.update(j, c)[i - 1] == cs[i - 1]);
        }
    }
}

/// Takes ownership of a node, leaving `Empty` behind.
pub fn take_node(node: &mut Node) -> (r: Node)
    ensures
        r == *old(node),
        *final(node) == Node::Empty,
{
    let mut tmp = Node::Empty;
    core::mem::swap(node, &mut tmp);
    tmp
}

/// Seventeen empty child slots.
pub fn empty_children() -> (r: Vec<Node>)
    ensures
        r@.len() == 17,
        forall|j: int| 0 <= j < 17 ==> (#[trigger] r@[j]) is Empty,
{
    let mut r: Vec<Node> = Vec::new();
    let mut i: usize = 0;
    while i < 17
        invariant
            i <= 17,
            r@.len() == i,
            forall|j: int| 0 <= j < i ==> (#[trigger] r@[j]) is Empty,
        decreases 17 - i,
    {
        r.push(Node::Empty);
        i = i + 1;
    }
    r
}

/// A mutable borrow of one child, relating the vector before and after.
pub fn child_mut(v: &mut Vec<Node>, i: usize) -> (element: &mut Node)
    requires
        i < old(v).len(),
    ensures
        *element == old(v)@[i as int],
        final(v)@ == old(v)@.update(i as int, *final(element)),
{
    &mut v[i]
}

/// Decodes a node from its RLP blob, remembering the hash it was stored
/// under. The decoder is strict: it rejects anything that breaks the
/// structural invariants or is not in canonical form, so whatever it
/// accepts re-encodes to exactly the input blob.
pub fn decode_node(hash: Vec<u8>, buff: Vec<u8>) -> (r: Result<Node, ()>)
    ensures
        r matches Ok(n) ==> wf_node(n) && (n is ShortNode || n is FullNode) && buff@
            == crate::trie::hash::node_enc(n) && crate::trie::canonical::stored_form(n)
            && crate::trie::canonical::no_empty_values(n) && !dirty_of(n) && (memo_of(n)
            matches Some(h) && h@ == hash@),
        (exists|n: Node|
            crate::trie::canonical::node_decodable(n) && buff@ == crate::trie::hash::node_enc(
                n,
            )) ==> r is Ok,
{
    decode_node_inner(Some(&hash), buff.as_slice())
}

/// Decodes a node, failing rather than panicking on malformed input.
pub fn must_decode_node(hash: Vec<u8>, buff: Vec<u8>) -> (r: Result<Node, ()>)
    ensures
        r matches Ok(n) ==> wf_node(n) && (n is ShortNode || n is FullNode) && buff@
            == crate::trie::hash::node_enc(n) && crate::trie::canonical::stored_form(n)
            && crate::trie::canonical::no_empty_values(n) && !dirty_of(n) && (memo_of(n)
            matches Some(h) && h@ == hash@),
        (exists|n: Node|
            crate::trie::canonical::node_decodable(n) && buff@ == crate::trie::hash::node_enc(
                n,
            )) ==> r is Ok,
{
    decode_node(hash, buff)
}

/// Decodes a node blob; `hash` is absent for nodes embedded in a parent.
fn decode_node_inner(hash: Option<&Vec<u8>>, buff: &[u8]) -> (r: Result<Node, ()>)
    ensures
        r matches Ok(n) ==> wf_node(n) && (n is ShortNode || n is FullNode) && buff@
            == crate::trie::hash::node_enc(n) && crate::trie::canonical::stored_form(n)
            && crate::trie::canonical::no_empty_values(n) && !dirty_of(n) && (match hash {
            Some(h) => memo_of(n) matches Some(hh) && hh@ == h@,
            None => memo_of(n) is None,
        }),
        (exists|n: Node|
            crate::trie::canonical::node_decodable(n) && buff@ == crate::trie::hash::node_enc(
                n,
            )) ==> r is Ok,
    decreases buff@.len(), 0int,
{
    let ghost has_w = exists|n: Node|
        crate::trie::canonical::node_decodable(n) && buff@ == crate::trie::hash::node_enc(n);
    let ghost wn: Node = choose|n: Node|
        crate::trie::canonical::node_decodable(n) && buff@ == crate::trie::hash::node_enc(n);
    let ghost wpayload = match wn {
        Node::ShortNode(s1) => crate::rlp::model::string_enc(
            crate::trie::encoding::hex_to_compact_spec(s1.key@),
        ) + crate::trie::hash::node_ref(*s1.val),
        _ => crate::trie::hash::node_children_enc(wn->FullNode_0.children@, 17),
    };
    proof {
        if has_w {
            assert(buff@ == crate::rlp::model::list_enc(wpayload));
            assert(buff@.len() >= 1 + wpayload.len());
            crate::rlp::decode::lemma_list_enc_round_trip(wpayload, Seq::empty());
            assert(crate::rlp::model::list_enc(wpayload) + Seq::<u8>::empty() =~= buff@);
            // the payload holds two values for a short node, seventeen for
            // a branch
            match wn {
                Node::ShortNode(s1) => {
                    crate::trie::canonical::lemma_compact_len_bounded(wn);
                    crate::trie::canonical::lemma_short_payload_counts_two(s1.key@, *s1.val);
                },
                Node::FullNode(f1) => {
                    let wcs = f1.children@;
                    crate::trie::canonical::lemma_count_children(wcs, 0);
                    assert(wcs.skip(0) =~= wcs);
                },
                _ => {},
            }
        }
    }
    if buff.len() == 0 {
        return Err(());
    }
    let (elems, rest) = split_list(buff)?;
    if rest.len() != 0 {
        // trailing bytes after the node
        return Err(());
    }
    proof {
        crate::rlp::decode::lemma_split_progress(buff@);
        crate::rlp::decode::lemma_split_minimal(buff@);
        assert(elems@.len() < buff@.len());
        assert(buff@ =~= crate::rlp::model::list_enc(elems@));
    }
    proof {
        crate::rlp::decode::lemma_count_values_nonneg(elems@);
        if has_w {
            assert(elems@ == wpayload);
        }
    }
    let count = count_values(elems)?;
    match count {
        2 => {
            proof {
                if has_w {
                    // a branch's payload counts seventeen values, not two
                    assert(wn is ShortNode);
                }
            }
            let node = decode_short(hash, elems)?;
            proof {
                assert(crate::trie::hash::node_enc(Node::ShortNode(node))
                    == crate::rlp::model::list_enc(elems@));
            }
            Ok(Node::ShortNode(node))
        },
        17 => {
            proof {
                if has_w {
                    assert(wn is FullNode);
                }
            }
            let node = decode_full(hash, elems)?;
            proof {
                assert(crate::trie::hash::node_enc(Node::FullNode(node))
                    == crate::rlp::model::list_enc(elems@));
            }
            Ok(Node::FullNode(node))
        },
        _ => Err(()),
    }
}

/// The flags of a freshly decoded node: clean, remembering the hash the
/// blob was stored under, if any.
fn decoded_flags(hash: Option<&Vec<u8>>) -> (r: NodeFlag)
    ensures
        !r.dirty,
        match hash {
            Some(h) => r.hash matches Some(hh) && hh@ == h@,
            None => r.hash is None,
        },
{
    match hash {
        Some(h) => NodeFlag { hash: Some(clone_bytes(h)), dirty: false },
        None => NodeFlag { hash: None, dirty: false },
    }
}

/// Decodes a two-element list into a `Short` node: the compact key, then
/// either the value (for a terminated key) or a child reference.
#[verifier::rlimit(100)]
pub fn decode_short(hash: Option<&Vec<u8>>, elems: &[u8]) -> (r: Result<ShortNode, ()>)
    requires
        crate::rlp::decode::count_values_spec(elems@) == Some(2int),
    ensures
        r matches Ok(n) ==> wf_node(Node::ShortNode(n)) && elems@ == crate::rlp::model::string_enc(
            crate::trie::encoding::hex_to_compact_spec(n.key@),
        ) + crate::trie::hash::node_ref(*n.val) && crate::trie::canonical::stored_form(
            Node::ShortNode(n),
        ) && crate::trie::canonical::no_empty_values(Node::ShortNode(n)) && !n.flags.dirty && (
        match hash {
            Some(h) => n.flags.hash matches Some(hh) && hh@ == h@,
            None => n.flags.hash is None,
        }),
        (exists|sn: ShortNode|
            crate::trie::canonical::node_decodable(Node::ShortNode(sn)) && elems@
                == crate::rlp::model::string_enc(
                crate::trie::encoding::hex_to_compact_spec(sn.key@),
            ) + crate::trie::hash::node_ref(*sn.val)) ==> r is Ok,
    decreases elems@.len(), 2int,
{
    let ghost has_w = exists|sn: ShortNode|
        crate::trie::canonical::node_decodable(Node::ShortNode(sn)) && elems@
            == crate::rlp::model::string_enc(crate::trie::encoding::hex_to_compact_spec(sn.key@))
            + crate::trie::hash::node_ref(*sn.val);
    let ghost wsn: ShortNode = choose|sn: ShortNode|
        crate::trie::canonical::node_decodable(Node::ShortNode(sn)) && elems@
            == crate::rlp::model::string_enc(crate::trie::encoding::hex_to_compact_spec(sn.key@))
            + crate::trie::hash::node_ref(*sn.val);
    let ghost wc = crate::trie::encoding::hex_to_compact_spec(wsn.key@);
    proof {
        if has_w {
            crate::trie::canonical::lemma_compact_len_bounded(Node::ShortNode(wsn));
            crate::rlp::decode::lemma_string_enc_round_trip(
                wc,
                crate::trie::hash::node_ref(*wsn.val),
            );
            crate::trie::encoding::lemma_compact_is_canonical(wsn.key@);
            crate::trie::encoding::lemma_compact_round_trip(wsn.key@);
        }
    }
    let (kbuf, rest) = split_string(elems)?;
    proof {
        crate::rlp::decode::lemma_split_progress(elems@);
        crate::rlp::decode::lemma_split_minimal(elems@);
        crate::trie::encoding::lemma_compact_to_hex_valid(kbuf@);
        crate::rlp::decode::lemma_count_values_unfold(elems@);
        assert(elems@ =~= crate::rlp::model::string_enc(kbuf@) + rest@);
        assert(crate::rlp::decode::count_values_spec(rest@) == Some(1int));
        assert(rest@.len() > 0) by {
            if rest@.len() == 0 {
                crate::rlp::decode::lemma_count_values_zero(rest@);
            }
        }
        crate::rlp::decode::lemma_count_values_unfold(rest@);
        crate::rlp::decode::lemma_count_values_zero(
            crate::rlp::decode::split_spec(rest@).unwrap().2,
        );
        if has_w {
            assert(kbuf@ == wc);
            assert(rest@ == crate::trie::hash::node_ref(*wsn.val));
        }
    }
    // reject a key that is not in canonical compact form
    if kbuf.len() == 0 {
        return Err(());
    }
    let flag_byte = kbuf[0];
    proof {
        assert(flag_byte & 0x10 == 0 <==> (flag_byte / 16) % 2 == 0) by (bit_vector);
        assert(flag_byte & 0x0F == flag_byte % 16) by (bit_vector);
    }
    if flag_byte >= 64 {
        return Err(());
    }
    if (flag_byte & 0x10) == 0 && (flag_byte & 0x0F) != 0 {
        return Err(());
    }
    proof {
        assert(crate::trie::encoding::is_canonical_compact(kbuf@));
        crate::trie::encoding::lemma_compact_reverse_round_trip(kbuf@);
    }
    if kbuf.len() > (usize::MAX - 1) / 2 {
        proof {
            if has_w {
                assert(crate::trie::hash::node_enc(Node::ShortNode(wsn)).len() >= 1
                    + elems@.len());
                assert(18 * crate::trie::hash::node_enc(Node::ShortNode(wsn)).len() + 200
                    <= usize::MAX);
            }
        }
        return Err(());
    }
    let flag = decoded_flags(hash);
    let key = compact_to_hex(kbuf);
    proof {
        if has_w {
            assert(key@ == wsn.key@);
        }
    }
    if key.len() == 0 {
        return Err(());
    }
    if has_term(key.as_slice()) {
        // value node
        proof {
            if has_w {
                // a terminated key sits over a nonempty value
                let wv = *wsn.val;
                assert(wv is ValueNode);
                assert(crate::trie::canonical::no_empty_values(wv));
                assert(wv->ValueNode_0@.len() > 0);
                assert(rest@ == crate::rlp::model::string_enc(wv->ValueNode_0@));
                assert(wv->ValueNode_0@.len() < usize::MAX) by {
                    crate::trie::canonical::lemma_node_enc_pos(wv);
                }
                crate::rlp::decode::lemma_string_enc_round_trip(wv->ValueNode_0@, Seq::empty());
                assert(crate::rlp::model::string_enc(wv->ValueNode_0@) + Seq::<u8>::empty()
                    =~= rest@);
            }
        }
        let (val, tail) = split_string(rest)?;
        if tail.len() != 0 {
            return Err(());
        }
        if val.len() == 0 {
            // an empty value would encode like an absent child
            return Err(());
        }
        proof {
            crate::rlp::decode::lemma_split_minimal(rest@);
            assert(rest@ =~= crate::rlp::model::string_enc(val@));
        }
        let vnode = Node::ValueNode(vstd::slice::slice_to_vec(val));
        proof {
            assert(wf_node(vnode));
            assert(crate::trie::hash::node_ref(vnode) == crate::rlp::model::string_enc(val@));
            assert(crate::trie::canonical::no_empty_values(vnode));
            assert(crate::trie::canonical::stored_ref(vnode));
        }
        let node = ShortNode { key, val: Box::new(vnode), flags: flag };
        return Ok(node);
    }
    proof {
        if has_w {
            // an unterminated key sits over a branch or a hash reference
            let wv = *wsn.val;
            assert(wv is FullNode || wv is HashNode);
            assert(crate::trie::canonical::ref_decodable(wv));
            assert(rest@ == crate::trie::hash::node_ref(wv) + Seq::<u8>::empty()) by {
                assert(rest@ =~= rest@ + Seq::<u8>::empty());
            }
            crate::trie::canonical::lemma_ref_splits(wv, Seq::empty());
        }
    }
    let (child, tail) = decode_ref(rest)?;
    if tail.len() != 0 {
        return Err(());
    }
    proof {
        assert(rest@ =~= crate::trie::hash::node_ref(child));
    }
    match child {
        Node::FullNode(_) | Node::HashNode(_) => Ok(ShortNode {
            key,
            val: Box::new(child),
            flags: flag,
        }),
        _ => {
            proof {
                if has_w {
                    // the reference cannot be read back as any other kind
                    let wv = *wsn.val;
                    assert(crate::trie::hash::node_ref(child) == crate::trie::hash::node_ref(wv));
                    match child {
                        Node::Empty => {
                            crate::trie::canonical::lemma_ref_empty_iff(child, wv);
                        },
                        Node::ShortNode(csn) => {
                            assert(wv is FullNode) by {
                                if wv is HashNode {
                                    crate::trie::canonical::lemma_ref_splits(
                                        child,
                                        Seq::empty(),
                                    );
                                    assert(crate::trie::hash::node_ref(child)
                                        + Seq::<u8>::empty() =~= crate::trie::hash::node_ref(
                                        wv,
                                    ) + Seq::<u8>::empty());
                                }
                            }
                            // equal inline encodings count the same values
                            assert(crate::trie::hash::node_enc(child)
                                == crate::trie::hash::node_enc(wv));
                            crate::trie::canonical::lemma_stored_small_bounded(child);
                            crate::trie::canonical::lemma_compact_len_bounded(child);
                            crate::trie::canonical::lemma_short_payload_counts_two(
                                csn.key@,
                                *csn.val,
                            );
                            let wcs = wv->FullNode_0.children@;
                            crate::trie::canonical::lemma_count_children(wcs, 0);
                            assert(wcs.skip(0) =~= wcs);
                            let p1 = crate::rlp::model::string_enc(
                                crate::trie::encoding::hex_to_compact_spec(csn.key@),
                            ) + crate::trie::hash::node_ref(*csn.val);
                            let p2 = crate::trie::hash::node_children_enc(wcs, 17);
                            assert(crate::trie::hash::node_enc(child)
                                == crate::rlp::model::list_enc(p1));
                            assert(crate::trie::hash::node_enc(wv)
                                == crate::rlp::model::list_enc(p2));
                            assert(crate::trie::hash::node_enc(child).len() >= 1 + p1.len());
                            assert(crate::trie::hash::node_enc(wv).len() >= 1 + p2.len());
                            crate::trie::canonical::lemma_list_enc_injective(p1, p2);
                        },
                        _ => {},
                    }
                    assert(false);
                }
            }
            Err(())
        },
    }
}

/// Decodes a seventeen-element list into a `Full` node: sixteen child
/// references and a final value string.
#[verifier::rlimit(100)]
pub fn decode_full(hash: Option<&Vec<u8>>, elems: &[u8]) -> (r: Result<FullNode, ()>)
    requires
        crate::rlp::decode::count_values_spec(elems@) == Some(17int),
    ensures
        r matches Ok(n) ==> wf_node(Node::FullNode(n)) && elems@
            == crate::trie::hash::node_children_enc(n.children@, 17)
            && crate::trie::canonical::stored_form(Node::FullNode(n))
            && crate::trie::canonical::no_empty_values(Node::FullNode(n)) && !n.flags.dirty && (
        match hash {
            Some(h) => n.flags.hash matches Some(hh) && hh@ == h@,
            None => n.flags.hash is None,
        }),
        (exists|fnode: FullNode|
            crate::trie::canonical::node_decodable(Node::FullNode(fnode)) && elems@
                == crate::trie::hash::node_children_enc(fnode.children@, 17)) ==> r is Ok,
    decreases elems@.len(), 2int,
{
    let ghost has_w = exists|fnode: FullNode|
        crate::trie::canonical::node_decodable(Node::FullNode(fnode)) && elems@
            == crate::trie::hash::node_children_enc(fnode.children@, 17);
    let ghost wfn: FullNode = choose|fnode: FullNode|
        crate::trie::canonical::node_decodable(Node::FullNode(fnode)) && elems@
            == crate::trie::hash::node_children_enc(fnode.children@, 17);
    let ghost wcs = wfn.children@;
    proof {
        if has_w {
            assert(wcs.len() == 17);
            assert(wcs.skip(0) =~= wcs);
        }
    }
    let mut children: Vec<Node> = Vec::new();
    let mut rest = elems;
    let mut i: usize = 0;
    while i < 16
        invariant
            i <= 16,
            children@.len() == i,
            rest@.len() <= elems@.len(),
            crate::rlp::decode::count_values_spec(rest@) == Some(17 - i as int),
            elems@ == crate::trie::hash::node_children_enc(children@, i as int) + rest@,
            forall|j: int| 0 <= j < i ==> wf_node(#[trigger] children@[j]) && !(children@[j]
                is ValueNode) && crate::trie::canonical::stored_ref(children@[j])
                && crate::trie::canonical::no_empty_values(children@[j]),
            has_w == exists|fnode: FullNode|
                crate::trie::canonical::node_decodable(Node::FullNode(fnode)) && elems@
                    == crate::trie::hash::node_children_enc(fnode.children@, 17),
            has_w ==> crate::trie::canonical::node_decodable(Node::FullNode(wfn)) && elems@
                == crate::trie::hash::node_children_enc(wcs, 17) && wcs == wfn.children@
                && wcs.len() == 17,
            has_w ==> rest@ == crate::trie::hash::node_children_enc(
                wcs.skip(i as int),
                17 - i as int,
            ),
            has_w ==> (forall|j: int|
                0 <= j < i ==> crate::trie::hash::node_ref(#[trigger] children@[j])
                    == crate::trie::hash::node_ref(wcs[j])),
        decreases 16 - i,
    {
        proof {
            assert(rest@.len() > 0) by {
                if rest@.len() == 0 {
                    crate::rlp::decode::lemma_count_values_zero(rest@);
                }
            }
            crate::rlp::decode::lemma_count_values_unfold(rest@);
            if has_w {
                // the remainder starts with the next reference
                crate::trie::canonical::lemma_ncc_left(wcs.skip(i as int), 17 - i as int);
                assert(wcs.skip(i as int)[0] == wcs[i as int]);
                assert(wcs.skip(i as int).skip(1) =~= wcs.skip(i + 1));
                lemma_wf_children_index(wcs, 17, i as int);
                crate::trie::canonical::lemma_stored_children_index(wcs, 17, i as int);
                crate::trie::canonical::lemma_nev_children_index(wcs, 17, i as int);
                crate::trie::hash::lemma_enc_bounded_children_index(wcs, 17, i as int);
                assert(!(wcs[i as int] is ValueNode));
                assert(crate::trie::canonical::ref_decodable(wcs[i as int]));
                crate::trie::canonical::lemma_ref_splits(
                    wcs[i as int],
                    crate::trie::hash::node_children_enc(wcs.skip(i + 1), 16 - i as int),
                );
            }
        }
        let ghost old_children = children@;
        let ghost old_rest = rest@;
        let (child_node, r) = decode_ref(rest)?;
        children.push(child_node);
        rest = r;
        i = i + 1;
        proof {
            lemma_node_children_enc_push(old_children, child_node, (i - 1) as int);
            assert(old_rest =~= crate::trie::hash::node_ref(child_node) + rest@);
            assert(elems@ =~= crate::trie::hash::node_children_enc(children@, i as int) + rest@);
            if has_w {
                let wtail = crate::trie::hash::node_children_enc(wcs.skip(i as int), 17 - i);
                assert(rest@ == wtail);
                assert(crate::trie::hash::node_ref(child_node) =~= crate::trie::hash::node_ref(
                    wcs[i - 1],
                )) by {
                    assert(old_rest == crate::trie::hash::node_ref(wcs[i - 1]) + wtail);
                    let l1 = crate::trie::hash::node_ref(child_node).len() as int;
                    let l2 = crate::trie::hash::node_ref(wcs[i - 1]).len() as int;
                    assert(l1 == old_rest.len() - rest@.len());
                    assert(l2 == old_rest.len() - wtail.len());
                    assert(crate::trie::hash::node_ref(child_node) =~= old_rest.take(l1));
                    assert(crate::trie::hash::node_ref(wcs[i - 1]) =~= old_rest.take(l2));
                }
            }
        }
    }
    proof {
        assert(rest@.len() > 0) by {
            if rest@.len() == 0 {
                crate::rlp::decode::lemma_count_values_zero(rest@);
            }
        }
        crate::rlp::decode::lemma_count_values_unfold(rest@);
        crate::rlp::decode::lemma_count_values_zero(
            crate::rlp::decode::split_spec(rest@).unwrap().2,
        );
        if has_w {
            // the last item is the embedded value string
            crate::trie::canonical::lemma_ncc_left(wcs.skip(16), 1);
            assert(wcs.skip(16)[0] == wcs[16]);
            assert(wcs.skip(16).skip(1) =~= wcs.skip(17));
            assert(crate::trie::hash::node_children_enc(wcs.skip(17), 0) =~= Seq::<u8>::empty());
            assert(rest@ =~= crate::trie::hash::node_ref(wcs[16]));
            assert(wcs[16] is ValueNode || wcs[16] is Empty);
            crate::trie::canonical::lemma_nev_children_index(wcs, 17, 16);
            match wcs[16] {
                Node::ValueNode(wv) => {
                    assert(wv@.len() > 0);
                    assert(wv@.len() < usize::MAX) by {
                        assert(crate::rlp::model::string_enc(wv@).len() >= wv@.len());
                    }
                    crate::rlp::decode::lemma_string_enc_round_trip(wv@, Seq::empty());
                    assert(crate::rlp::model::string_enc(wv@) + Seq::<u8>::empty() =~= rest@);
                },
                Node::Empty => {
                    crate::rlp::decode::lemma_string_enc_round_trip(
                        Seq::<u8>::empty(),
                        Seq::empty(),
                    );
                    assert(crate::rlp::model::string_enc(Seq::<u8>::empty())
                        + Seq::<u8>::empty() =~= rest@);
                },
                _ => {},
            }
        }
    }
    let (val, tail) = split_string(rest)?;
    if tail.len() != 0 {
        return Err(());
    }
    proof {
        crate::rlp::decode::lemma_split_minimal(rest@);
        assert(rest@ =~= crate::rlp::model::string_enc(val@));
    }
    let ghost pre_children = children@;
    if val.len() > 0 {
        let vnode = Node::ValueNode(vstd::slice::slice_to_vec(val));
        proof {
            assert(wf_node(vnode));
            assert(crate::trie::hash::node_ref(vnode) == crate::rlp::model::string_enc(val@));
        }
        children.push(vnode);
    } else {
        proof {
            assert(crate::rlp::model::string_enc(val@) =~= seq![0x80u8]);
            assert(crate::trie::hash::node_ref(Node::Empty) == seq![0x80u8]);
        }
        children.push(Node::Empty);
    }
    proof {
        lemma_node_children_enc_push(pre_children, children@[16], 16);
        assert(elems@ =~= crate::trie::hash::node_children_enc(children@, 17));
        if has_w {
            assert(crate::trie::hash::node_ref(children@[16]) == crate::trie::hash::node_ref(
                wcs[16],
            )) by {
                match wcs[16] {
                    Node::ValueNode(wv) => {
                        assert(val@ == wv@);
                        assert(val@.len() > 0);
                    },
                    Node::Empty => {
                        assert(val@ == Seq::<u8>::empty());
                    },
                    _ => {},
                }
            }
        }
    }
    // Reject a branch the structural invariants rule out.
    let mut nonempty: usize = 0;
    let mut j: usize = 0;
    while j < 17
        invariant
            j <= 17,
            children@.len() == 17,
            nonempty == count_nonempty(children@, j as int),
            nonempty <= j,
        decreases 17 - j,
    {
        match &children[j] {
            Node::Empty => {},
            _ => {
                nonempty = nonempty + 1;
            },
        }
        j = j + 1;
    }
    if nonempty < 2 {
        proof {
            if has_w {
                // the stored branch has at least two occupied slots, and
                // occupancy is readable off the references
                assert forall|j: int| 0 <= j < 17 implies ((#[trigger] children@[j]) is Empty
                    <==> wcs[j] is Empty) by {
                    lemma_wf_children_index(wcs, 17, j);
                    crate::trie::canonical::lemma_stored_children_index(wcs, 17, j);
                    crate::trie::canonical::lemma_nev_children_index(wcs, 17, j);
                    crate::trie::hash::lemma_enc_bounded_children_index(wcs, 17, j);
                    assert(wf_node(children@[j]) && crate::trie::canonical::stored_ref(
                        children@[j],
                    ) && crate::trie::canonical::no_empty_values(children@[j]));
                    crate::trie::canonical::lemma_stored_ref_is_enc(children@[j]);
                    crate::trie::canonical::lemma_stored_ref_is_enc(wcs[j]);
                    assert(crate::trie::hash::node_enc(wcs[j]).len() < usize::MAX);
                    crate::trie::canonical::lemma_ref_empty_iff(children@[j], wcs[j]);
                }
                crate::trie::hash::lemma_count_nonempty_congruent(children@, wcs, 17);
                assert(count_nonempty(wcs, 17) >= 2);
                assert(false);
            }
        }
        return Err(());
    }
    let node = FullNode { children, flags: decoded_flags(hash) };
    proof {
        lemma_wf_children_build(node.children@, 17);
        crate::trie::canonical::lemma_stored_children_build(node.children@, 17);
        crate::trie::canonical::lemma_nev_children_build(node.children@, 17);
    }
    Ok(node)
}

/// Appending a child extends the reference concatenation by its reference.
proof fn lemma_node_children_enc_push(cs: Seq<Node>, c: Node, i: int)
    requires
        cs.len() == i,
        0 <= i,
    ensures
        crate::trie::hash::node_children_enc(cs.push(c), i + 1)
            == crate::trie::hash::node_children_enc(cs, i) + crate::trie::hash::node_ref(c),
    decreases i,
{
    lemma_node_children_enc_prefix(cs.push(c), cs, i);
    assert(cs.push(c)[i] == c);
}

/// The reference concatenation reads only the first `i` children.
proof fn lemma_node_children_enc_prefix(cs1: Seq<Node>, cs2: Seq<Node>, i: int)
    requires
        0 <= i <= cs1.len(),
        i <= cs2.len(),
        forall|j: int| 0 <= j < i ==> cs1[j] == cs2[j],
    ensures
        crate::trie::hash::node_children_enc(cs1, i) == crate::trie::hash::node_children_enc(
            cs2,
            i,
        ),
    decreases i,
{
    if i > 0 {
        lemma_node_children_enc_prefix(cs1, cs2, i - 1);
    }
}

/// Decodes one child reference: the empty string for an absent child, a
/// 32-byte string for a hash reference, or an embedded node whose encoding
/// stays under 32 bytes.
fn decode_ref(buff: &[u8]) -> (r: Result<(Node, &[u8]), ()>)
    ensures
        r matches Ok((n, rest)) ==> wf_node(n) && !(n is ValueNode) && rest@.len() < buff@.len()
            && buff@ == crate::trie::hash::node_ref(n) + rest@
            && crate::rlp::decode::split_spec(buff@) is Some && rest@
            == crate::rlp::decode::split_spec(buff@).unwrap().2
            && crate::trie::canonical::stored_ref(n) && crate::trie::canonical::no_empty_values(n),
        (exists|c: Node, rr: Seq<u8>|
            crate::trie::canonical::ref_decodable(c) && buff@ == crate::trie::hash::node_ref(c)
                + rr) ==> r is Ok,
    decreases buff@.len(), 1int,
{
    let ghost has_w = exists|c: Node, rr: Seq<u8>|
        crate::trie::canonical::ref_decodable(c) && buff@ == crate::trie::hash::node_ref(c) + rr;
    let ghost (wc, wr): (Node, Seq<u8>) = choose|c: Node, rr: Seq<u8>|
        crate::trie::canonical::ref_decodable(c) && buff@ == crate::trie::hash::node_ref(c) + rr;
    proof {
        if has_w {
            crate::trie::canonical::lemma_ref_splits(wc, wr);
        }
    }
    let (kind, val, rest) = crate::rlp::decode::split(buff)?;
    proof {
        crate::rlp::decode::lemma_split_progress(buff@);
        crate::rlp::decode::lemma_split_minimal(buff@);
    }
    match kind {
        Kind::List => {
            // 'embedded' node reference: its encoding must stay under the
            // hash size, else it should have been referenced by hash
            let consumed = buff.len() - rest.len();
            proof {
                if has_w {
                    // a list head names an inline short or full node
                    assert(wc is ShortNode || wc is FullNode);
                    assert(crate::trie::hash::node_ref(wc) == crate::trie::hash::node_enc(wc));
                    assert(rest@ == wr);
                    assert(consumed == crate::trie::hash::node_ref(wc).len());
                    assert(consumed < 32);
                }
            }
            if consumed >= 32 {
                return Err(());
            }
            let embedded = vstd::slice::slice_subrange(buff, 0, consumed);
            proof {
                assert(embedded@ =~= crate::rlp::model::list_enc(val@));
                if has_w {
                    assert(embedded@ =~= crate::trie::hash::node_enc(wc));
                    assert(crate::trie::canonical::node_decodable(wc));
                }
            }
            let n = decode_node_inner(None, embedded)?;
            proof {
                assert(crate::trie::hash::node_enc(n).len() < 32);
                assert(crate::trie::hash::node_ref(n) == crate::trie::hash::node_enc(n));
                assert(buff@ =~= crate::trie::hash::node_ref(n) + rest@);
            }
            Ok((n, rest))
        },
        _ => {
            if val.len() == 0 {
                proof {
                    assert(crate::rlp::model::string_enc(val@) =~= seq![0x80u8]);
                    assert(buff@ =~= crate::trie::hash::node_ref(Node::Empty) + rest@);
                }
                Ok((Node::Empty, rest))
            } else if val.len() == 32 {
                let h = Node::HashNode(vstd::slice::slice_to_vec(val));
                proof {
                    assert(crate::trie::hash::node_ref(h) == crate::rlp::model::string_enc(val@));
                    assert(buff@ =~= crate::trie::hash::node_ref(h) + rest@);
                }
                Ok((h, rest))
            } else {
                proof {
                    if has_w {
                        // a string head names a hash reference or an absent
                        // child, whose contents are 32 or 0 bytes
                        assert(!(wc is ShortNode || wc is FullNode));
                        match wc {
                            Node::HashNode(hh) => {
                                assert(val@ == hh@);
                            },
                            Node::Empty => {
                                assert(val@ == Seq::<u8>::empty());
                            },
                            _ => {},
                        }
                        assert(false);
                    }
                }
                Err(())
            }
        },
    }
}

/// A well-formed, resolved node with an empty map is the empty node.
pub proof fn lemma_empty_map_is_empty(n: Node)
    requires
        wf_node(n),
        resolved(n),
        node_map(n) == Map::<Seq<u8>, Seq<u8>>::empty(),
    ensures
        n is Empty,
{
    if !(n is Empty) {
        lemma_wf_nonempty(n);
        let k = choose|k: Seq<u8>| node_map(n).contains_key(k);
        assert(false);
    }
}

} // verus!
