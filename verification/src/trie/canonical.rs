//! Canonical form: a well-formed, fully materialized trie is determined,
//! up to caching flags, by the set of bindings it holds. Its root
//! commitment therefore depends only on the final contents, not on the
//! order of the insertions and deletions that built it.

use vstd::prelude::*;

use crate::rlp::decode::{count_values_spec, split_spec, Kind};
use crate::rlp::model::{list_enc, string_enc};
use crate::trie::hash::{kind_eq, node_enc, node_ref, node_children_enc};
use crate::trie::node::{
    children_map, count_nonempty, lemma_children_map_contains, lemma_count_nonempty_exists,
    lemma_resolved_children_index, lemma_wf_children_index, lemma_wf_nonempty, node_map, prefixed,
    resolved, wf_node, Node,
};

verus! {

/// A branch holds two bindings whose paths start with different nibbles.
proof fn lemma_full_two_first_nibbles(n: Node)
    requires
        wf_node(n),
        resolved(n),
        n is FullNode,
    ensures
        exists|k1: Seq<u8>, k2: Seq<u8>|
            node_map(n).contains_key(k1) && node_map(n).contains_key(k2) && k1.len() > 0
                && k2.len() > 0 && k1[0] != k2[0],
{
    let cs = n->FullNode_0.children@;
    assert(count_nonempty(cs, 17) >= 2);
    let (j1, j2) = choose|j1: int, j2: int|
        0 <= j1 < j2 < 17 && !((#[trigger] cs[j1]) is Empty) && !((#[trigger] cs[j2]) is Empty);
    assert(0 <= j1 < j2 < 17 && !(cs[j1] is Empty) && !(cs[j2] is Empty)) by {
        lemma_count_two_nonempty(cs, 17);
    }
    lemma_wf_children_index(cs, 17, j1);
    lemma_wf_children_index(cs, 17, j2);
    lemma_resolved_children_index(cs, 17, j1);
    lemma_resolved_children_index(cs, 17, j2);
    lemma_wf_nonempty(cs[j1]);
    lemma_wf_nonempty(cs[j2]);
    let t1 = choose|t: Seq<u8>| node_map(cs[j1]).contains_key(t);
    let t2 = choose|t: Seq<u8>| node_map(cs[j2]).contains_key(t);
    let k1 = seq![j1 as u8] + t1;
    let k2 = seq![j2 as u8] + t2;
    lemma_children_map_contains(cs, 17, k1);
    lemma_children_map_contains(cs, 17, k2);
    assert(k1[0] == j1 as u8 && k1.skip(1) =~= t1);
    assert(k2[0] == j2 as u8 && k2.skip(1) =~= t2);
    assert(node_map(n).contains_key(k1) && node_map(n).contains_key(k2));
    assert(k1[0] != k2[0]);
}

/// At least two non-empty slots give two distinct non-empty indices.
proof fn lemma_count_two_nonempty(cs: Seq<Node>, i: int)
    requires
        count_nonempty(cs, i) >= 2,
        i <= cs.len(),
    ensures
        exists|j1: int, j2: int|
            0 <= j1 < j2 < i && !((#[trigger] cs[j1]) is Empty) && !((#[trigger] cs[j2]) is Empty),
    decreases i,
{
    if i > 0 {
        if cs[i - 1] is Empty {
            lemma_count_two_nonempty(cs, i - 1);
            let (j1, j2) = choose|j1: int, j2: int|
                0 <= j1 < j2 < i - 1 && !((#[trigger] cs[j1]) is Empty) && !((#[trigger] cs[j2])
                    is Empty);
            assert(0 <= j1 < j2 < i && !(cs[j1] is Empty) && !(cs[j2] is Empty));
        } else {
            assert(count_nonempty(cs, i - 1) >= 1);
            lemma_count_nonempty_exists(cs, i - 1);
            let j1 = choose|j: int| 0 <= j < i - 1 && !((#[trigger] cs[j]) is Empty);
            assert(0 <= j1 < i - 1 < i && !(cs[j1] is Empty) && !(cs[i - 1] is Empty));
        }
    }
}

/// Every binding below a short node extends its key.
proof fn lemma_short_keys_extend(n: Node, k: Seq<u8>)
    requires
        n is ShortNode,
        node_map(n).contains_key(k),
    ensures
        k.len() >= n->ShortNode_0.key@.len(),
        k.take(n->ShortNode_0.key@.len() as int) == n->ShortNode_0.key@,
        n->ShortNode_0.key@.len() > 0 ==> (k.len() > 0 && k[0] == n->ShortNode_0.key@[0]),
{
    let sk = n->ShortNode_0.key@;
    assert(k.take(sk.len() as int) == sk);
    if sk.len() > 0 {
        assert(k[0] == k.take(sk.len() as int)[0]);
    }
}

/// Equal prefixed maps with the same prefix have equal bodies.
proof fn lemma_prefixed_injective(p: Seq<u8>, m1: Map<Seq<u8>, Seq<u8>>, m2: Map<Seq<u8>, Seq<u8>>)
    requires
        prefixed(p, m1) == prefixed(p, m2),
    ensures
        m1 == m2,
{
    assert forall|t: Seq<u8>| #[trigger] m1.contains_key(t) <==> m2.contains_key(t) by {
        let k = p + t;
        assert(k.take(p.len() as int) =~= p);
        assert(k.skip(p.len() as int) =~= t);
        assert(prefixed(p, m1).contains_key(k) <==> m1.contains_key(t));
        assert(prefixed(p, m2).contains_key(k) <==> m2.contains_key(t));
    }
    assert forall|t: Seq<u8>| m1.contains_key(t) && m2.contains_key(t) implies #[trigger] m1[t]
        == #[trigger] m2[t] by {
        let k = p + t;
        assert(k.take(p.len() as int) =~= p);
        assert(k.skip(p.len() as int) =~= t);
        assert(prefixed(p, m1)[k] == m1[t]);
        assert(prefixed(p, m2)[k] == m2[t]);
    }
    assert(m1 =~= m2);
}

/// Short nodes with the same bindings have the same key.
proof fn lemma_short_key_unique(n1: Node, n2: Node)
    requires
        n1 is ShortNode,
        n2 is ShortNode,
        wf_node(n1),
        wf_node(n2),
        resolved(n1),
        resolved(n2),
        node_map(n1) == node_map(n2),
    ensures
        n1->ShortNode_0.key@ == n2->ShortNode_0.key@,
{
    let k1 = n1->ShortNode_0.key@;
    let k2 = n2->ShortNode_0.key@;
    let c1 = *n1->ShortNode_0.val;
    let c2 = *n2->ShortNode_0.val;
    let m = node_map(n1);
    assert(m == prefixed(k1, node_map(c1)));
    assert(node_map(n2) == prefixed(k2, node_map(c2)));
    lemma_wf_nonempty(n1);
    let kk = choose|kk: Seq<u8>| m.contains_key(kk);
    lemma_short_keys_extend(n1, kk);
    lemma_short_keys_extend(n2, kk);
    assert(k1.len() == k2.len()) by {
        if c1 is ValueNode {
            // the map is the single binding at the short node's key
            assert(node_map(c1) == Map::<Seq<u8>, Seq<u8>>::empty().insert(
                Seq::<u8>::empty(),
                c1->ValueNode_0@,
            ));
            crate::trie::node::lemma_prefixed_value(k1, c1->ValueNode_0@);
            assert(m == Map::<Seq<u8>, Seq<u8>>::empty().insert(k1, c1->ValueNode_0@));
            if c2 is ValueNode {
                assert(node_map(c2) == Map::<Seq<u8>, Seq<u8>>::empty().insert(
                    Seq::<u8>::empty(),
                    c2->ValueNode_0@,
                ));
                crate::trie::node::lemma_prefixed_value(k2, c2->ValueNode_0@);
                assert(m.contains_key(k2));
                assert(k2 == k1);
            } else {
                // a branch below would put two bindings in a singleton map
                assert(c2 is FullNode);
                lemma_full_two_first_nibbles(c2);
                let (t1, t2) = choose|t1: Seq<u8>, t2: Seq<u8>|
                    node_map(c2).contains_key(t1) && node_map(c2).contains_key(t2) && t1.len() > 0
                        && t2.len() > 0 && t1[0] != t2[0];
                let x1 = k2 + t1;
                let x2 = k2 + t2;
                assert(x1.take(k2.len() as int) =~= k2 && x1.skip(k2.len() as int) =~= t1);
                assert(x2.take(k2.len() as int) =~= k2 && x2.skip(k2.len() as int) =~= t2);
                assert(m.contains_key(x1) && m.contains_key(x2));
                assert(x1 == k1 && x2 == k1);
                assert(x1[k2.len() as int] == t1[0] && x2[k2.len() as int] == t2[0]);
                assert(false);
            }
        } else {
            assert(c1 is FullNode);
            if c2 is ValueNode {
                assert(node_map(c2) == Map::<Seq<u8>, Seq<u8>>::empty().insert(
                    Seq::<u8>::empty(),
                    c2->ValueNode_0@,
                ));
                crate::trie::node::lemma_prefixed_value(k2, c2->ValueNode_0@);
                assert(m == Map::<Seq<u8>, Seq<u8>>::empty().insert(k2, c2->ValueNode_0@));
                lemma_full_two_first_nibbles(c1);
                let (t1, t2) = choose|t1: Seq<u8>, t2: Seq<u8>|
                    node_map(c1).contains_key(t1) && node_map(c1).contains_key(t2) && t1.len() > 0
                        && t2.len() > 0 && t1[0] != t2[0];
                let x1 = k1 + t1;
                let x2 = k1 + t2;
                assert(x1.take(k1.len() as int) =~= k1 && x1.skip(k1.len() as int) =~= t1);
                assert(x2.take(k1.len() as int) =~= k1 && x2.skip(k1.len() as int) =~= t2);
                assert(m.contains_key(x1) && m.contains_key(x2));
                assert(x1 == k2 && x2 == k2);
                assert(x1[k1.len() as int] == t1[0] && x2[k1.len() as int] == t2[0]);
                assert(false);
            } else {
                assert(c2 is FullNode);
                // below each key sits a branch: neither key extends the other
                if k1.len() < k2.len() {
                    lemma_full_two_first_nibbles(c1);
                    let (t1, t2) = choose|t1: Seq<u8>, t2: Seq<u8>|
                        node_map(c1).contains_key(t1) && node_map(c1).contains_key(t2) && t1.len()
                            > 0 && t2.len() > 0 && t1[0] != t2[0];
                    let x1 = k1 + t1;
                    let x2 = k1 + t2;
                    assert(x1.take(k1.len() as int) =~= k1 && x1.skip(k1.len() as int) =~= t1);
                    assert(x2.take(k1.len() as int) =~= k1 && x2.skip(k1.len() as int) =~= t2);
                    assert(m.contains_key(x1) && m.contains_key(x2));
                    lemma_short_keys_extend(n2, x1);
                    lemma_short_keys_extend(n2, x2);
                    assert(x1[k1.len() as int] == x1.take(k2.len() as int)[k1.len() as int]);
                    assert(x2[k1.len() as int] == x2.take(k2.len() as int)[k1.len() as int]);
                    assert(t1[0] == k2[k1.len() as int] && t2[0] == k2[k1.len() as int]);
                    assert(false);
                }
                if k2.len() < k1.len() {
                    lemma_full_two_first_nibbles(c2);
                    let (t1, t2) = choose|t1: Seq<u8>, t2: Seq<u8>|
                        node_map(c2).contains_key(t1) && node_map(c2).contains_key(t2) && t1.len()
                            > 0 && t2.len() > 0 && t1[0] != t2[0];
                    let x1 = k2 + t1;
                    let x2 = k2 + t2;
                    assert(x1.take(k2.len() as int) =~= k2 && x1.skip(k2.len() as int) =~= t1);
                    assert(x2.take(k2.len() as int) =~= k2 && x2.skip(k2.len() as int) =~= t2);
                    assert(m.contains_key(x1) && m.contains_key(x2));
                    lemma_short_keys_extend(n1, x1);
                    lemma_short_keys_extend(n1, x2);
                    assert(x1[k2.len() as int] == x1.take(k1.len() as int)[k2.len() as int]);
                    assert(x2[k2.len() as int] == x2.take(k1.len() as int)[k2.len() as int]);
                    assert(t1[0] == k1[k2.len() as int] && t2[0] == k1[k2.len() as int]);
                    assert(false);
                }
            }
        }
    }
    // both keys are prefixes of the same binding and equally long
    assert(k1 =~= k2) by {
        assert(kk.take(k1.len() as int) == k1 && kk.take(k2.len() as int) == k2);
    }
}

/// Branches with the same bindings have childwise equal bindings.
proof fn lemma_full_child_maps_equal(cs1: Seq<Node>, cs2: Seq<Node>, j: int)
    requires
        cs1.len() == 17,
        cs2.len() == 17,
        children_map(cs1, 17) == children_map(cs2, 17),
        0 <= j < 17,
    ensures
        node_map(cs1[j]) == node_map(cs2[j]),
{
    let m1 = node_map(cs1[j]);
    let m2 = node_map(cs2[j]);
    assert forall|t: Seq<u8>| #[trigger] m1.contains_key(t) <==> m2.contains_key(t) by {
        let k = seq![j as u8] + t;
        assert(k[0] == j as u8 && k.skip(1) =~= t && k.len() > 0);
        lemma_children_map_contains(cs1, 17, k);
        lemma_children_map_contains(cs2, 17, k);
    }
    assert forall|t: Seq<u8>| m1.contains_key(t) && m2.contains_key(t) implies #[trigger] m1[t]
        == #[trigger] m2[t] by {
        let k = seq![j as u8] + t;
        assert(k[0] == j as u8 && k.skip(1) =~= t && k.len() > 0);
        lemma_children_map_contains(cs1, 17, k);
        lemma_children_map_contains(cs2, 17, k);
        assert(children_map(cs1, 17)[k] == m1[t]);
        assert(children_map(cs2, 17)[k] == m2[t]);
    }
    assert(m1 =~= m2);
}

/// Canonical form: well-formed, fully materialized nodes with the same
/// bindings have the same variant and the same canonical encoding, whatever
/// operations built them.
pub proof fn lemma_canonical_enc(n1: Node, n2: Node)
    requires
        wf_node(n1),
        wf_node(n2),
        resolved(n1),
        resolved(n2),
        node_map(n1) == node_map(n2),
    ensures
        node_enc(n1) == node_enc(n2),
        kind_eq(n1, n2),
        node_ref(n1) == node_ref(n2),
    decreases n1, 18int,
{
    let m = node_map(n1);
    if m == Map::<Seq<u8>, Seq<u8>>::empty() {
        crate::trie::node::lemma_empty_map_is_empty(n1);
        crate::trie::node::lemma_empty_map_is_empty(n2);
    } else {
        lemma_wf_nonempty(n1);
        match n1 {
            Node::ValueNode(v1) => {
                assert(m.contains_key(Seq::<u8>::empty()));
                lemma_eps_forces_value(n2);
                let v2 = n2->ValueNode_0;
                assert(m[Seq::<u8>::empty()] == v1@ && m[Seq::<u8>::empty()] == v2@);
            },
            Node::ShortNode(s1) => {
                lemma_no_eps_no_value(n1, n2);
                assert(!(n2 is FullNode)) by {
                    if n2 is FullNode {
                        lemma_full_two_first_nibbles(n2);
                        let (x1, x2) = choose|x1: Seq<u8>, x2: Seq<u8>|
                            m.contains_key(x1) && m.contains_key(x2) && x1.len() > 0 && x2.len()
                                > 0 && x1[0] != x2[0];
                        lemma_short_keys_extend(n1, x1);
                        lemma_short_keys_extend(n1, x2);
                    }
                }
                assert(n2 is ShortNode);
                lemma_short_key_unique(n1, n2);
                let s2 = n2->ShortNode_0;
                assert(node_map(n1) == prefixed(s1.key@, node_map(*s1.val)));
                assert(node_map(n2) == prefixed(s2.key@, node_map(*s2.val)));
                assert(s1.key@ == s2.key@);
                lemma_prefixed_injective(s1.key@, node_map(*s1.val), node_map(*s2.val));
                lemma_canonical_enc(*s1.val, *s2.val);
                assert(node_enc(n1) == node_enc(n2));
            },
            Node::FullNode(f1) => {
                lemma_no_eps_no_value(n1, n2);
                assert(!(n2 is ShortNode)) by {
                    if n2 is ShortNode {
                        lemma_full_two_first_nibbles(n1);
                        let (x1, x2) = choose|x1: Seq<u8>, x2: Seq<u8>|
                            m.contains_key(x1) && m.contains_key(x2) && x1.len() > 0 && x2.len()
                                > 0 && x1[0] != x2[0];
                        lemma_short_keys_extend(n2, x1);
                        lemma_short_keys_extend(n2, x2);
                    }
                }
                assert(n2 is FullNode);
                let f2 = n2->FullNode_0;
                assert(node_map(n1) == children_map(f1.children@, 17));
                assert(node_map(n2) == children_map(f2.children@, 17));
                lemma_canonical_children(f1.children@, f2.children@, 17);
                assert(node_enc(n1) == node_enc(n2));
            },
            _ => {},
        }
    }
}

/// The empty path is bound only at a value node.
proof fn lemma_eps_forces_value(n: Node)
    requires
        wf_node(n),
        resolved(n),
        node_map(n).contains_key(Seq::<u8>::empty()),
    ensures
        n is ValueNode,
{
    match n {
        Node::ShortNode(sn) => {
            lemma_short_keys_extend(n, Seq::<u8>::empty());
        },
        Node::FullNode(f) => {
            lemma_children_map_contains(f.children@, 17, Seq::<u8>::empty());
        },
        _ => {},
    }
}

/// A node standing beside one that holds more than the empty-path binding
/// is itself no value node.
proof fn lemma_no_eps_no_value(n1: Node, n2: Node)
    requires
        wf_node(n1),
        wf_node(n2),
        resolved(n1),
        resolved(n2),
        node_map(n1) == node_map(n2),
        n1 is ShortNode || n1 is FullNode,
    ensures
        !(n2 is ValueNode),
        !(n2 is Empty),
        !(n2 is HashNode),
{
    lemma_wf_nonempty(n1);
    if n2 is ValueNode {
        assert(node_map(n2).contains_key(Seq::<u8>::empty()));
        lemma_eps_forces_value(n1);
    }
    if n2 is Empty {
        let kk = choose|kk: Seq<u8>| node_map(n1).contains_key(kk);
        assert(!node_map(n2).contains_key(kk));
    }
}

/// Pairwise canonicity over the child arrays of two branches.
proof fn lemma_canonical_children(cs1: Seq<Node>, cs2: Seq<Node>, i: int)
    requires
        cs1.len() == 17,
        cs2.len() == 17,
        crate::trie::node::wf_children(cs1, 17),
        crate::trie::node::wf_children(cs2, 17),
        crate::trie::node::resolved_children(cs1, 17),
        crate::trie::node::resolved_children(cs2, 17),
        children_map(cs1, 17) == children_map(cs2, 17),
        0 <= i <= 17,
    ensures
        node_children_enc(cs1, i) == node_children_enc(cs2, i),
    decreases cs1, i,
{
    if i > 0 {
        lemma_canonical_children(cs1, cs2, i - 1);
        lemma_wf_children_index(cs1, 17, i - 1);
        lemma_wf_children_index(cs2, 17, i - 1);
        lemma_resolved_children_index(cs1, 17, i - 1);
        lemma_resolved_children_index(cs2, 17, i - 1);
        lemma_full_child_maps_equal(cs1, cs2, i - 1);
        lemma_canonical_enc(cs1[i - 1], cs2[i - 1]);
    }
}

/// Structural equality of nodes disregarding the caching flags: the shape
/// the canonical encoding is computed from.
pub open spec fn same_shape(a: Node, b: Node) -> bool
    decreases a, 18int,
{
    match (a, b) {
        (Node::Empty, Node::Empty) => true,
        (Node::HashNode(h1), Node::HashNode(h2)) => h1@ == h2@,
        (Node::ValueNode(v1), Node::ValueNode(v2)) => v1@ == v2@,
        (Node::ShortNode(s1), Node::ShortNode(s2)) => s1.key@ == s2.key@ && same_shape(
            *s1.val,
            *s2.val,
        ),
        (Node::FullNode(f1), Node::FullNode(f2)) => f1.children@.len() == f2.children@.len()
            && shape_children(f1.children@, f2.children@, 17),
        _ => false,
    }
}

/// The first `i` children are pairwise shape-equal.
pub open spec fn shape_children(cs1: Seq<Node>, cs2: Seq<Node>, i: int) -> bool
    decreases cs1, i,
{
    if i <= 0 || i > cs1.len() || cs1.len() != cs2.len() {
        true
    } else {
        shape_children(cs1, cs2, i - 1) && same_shape(cs1[i - 1], cs2[i - 1])
    }
}

/// The stored form of a node: every inline subtree's encoding stays under
/// the hash size, as the hasher and decoder guarantee.
pub open spec fn stored_form(n: Node) -> bool
    decreases n, 18int,
{
    match n {
        Node::ShortNode(sn) => stored_ref(*sn.val),
        Node::FullNode(f) => stored_children(f.children@, 17),
        _ => true,
    }
}

/// A stored child reference: an inline subtree is small and itself stored.
pub open spec fn stored_ref(n: Node) -> bool
    decreases n, 19int,
{
    match n {
        Node::ShortNode(_) | Node::FullNode(_) => node_enc(n).len() < 32 && stored_form(n),
        _ => true,
    }
}

/// The first `i` children are stored references.
pub open spec fn stored_children(cs: Seq<Node>, i: int) -> bool
    decreases cs, i,
{
    if i <= 0 || i > cs.len() {
        true
    } else {
        stored_children(cs, i - 1) && stored_ref(cs[i - 1])
    }
}

/// No empty value payload anywhere: an empty value would encode like an
/// absent child.
pub open spec fn no_empty_values(n: Node) -> bool
    decreases n, 18int,
{
    match n {
        Node::ValueNode(v) => v@.len() > 0,
        Node::ShortNode(sn) => no_empty_values(*sn.val),
        Node::FullNode(f) => nev_children(f.children@, 17),
        _ => true,
    }
}

/// The first `i` children have no empty value payloads.
pub open spec fn nev_children(cs: Seq<Node>, i: int) -> bool
    decreases cs, i,
{
    if i <= 0 || i > cs.len() {
        true
    } else {
        nev_children(cs, i - 1) && no_empty_values(cs[i - 1])
    }
}

/// How a reference splits: one RLP value consuming exactly the reference.
pub proof fn lemma_ref_splits(c: Node, r: Seq<u8>)
    requires
        wf_node(c),
        stored_ref(c),
        node_enc(c).len() < usize::MAX,
    ensures
        split_spec(node_ref(c) + r) == Some::<(Kind, Seq<u8>, Seq<u8>)>(
            (
                match c {
                    Node::ShortNode(_) | Node::FullNode(_) => Kind::List,
                    Node::HashNode(_) => Kind::String,
                    Node::ValueNode(v) => if v@.len() == 1 && v@[0] < 0x80 {
                        Kind::Byte
                    } else {
                        Kind::String
                    },
                    Node::Empty => Kind::String,
                },
                match c {
                    Node::ShortNode(sn) => string_enc(
                        crate::trie::encoding::hex_to_compact_spec(sn.key@),
                    ) + node_ref(*sn.val),
                    Node::FullNode(f) => node_children_enc(f.children@, 17),
                    Node::HashNode(h) => h@,
                    Node::ValueNode(v) => v@,
                    Node::Empty => Seq::empty(),
                },
                r,
            ),
        ),
{
    match c {
        Node::ShortNode(sn) => {
            assert(node_ref(c) == node_enc(c));
            crate::rlp::decode::lemma_list_enc_round_trip(
                string_enc(crate::trie::encoding::hex_to_compact_spec(sn.key@)) + node_ref(
                    *sn.val,
                ),
                r,
            );
        },
        Node::FullNode(f) => {
            assert(node_ref(c) == node_enc(c));
            crate::rlp::decode::lemma_string_enc_round_trip(Seq::<u8>::empty(), r);
            crate::rlp::decode::lemma_list_enc_round_trip(node_children_enc(f.children@, 17), r);
        },
        Node::HashNode(h) => {
            crate::rlp::decode::lemma_string_enc_round_trip(h@, r);
        },
        Node::ValueNode(v) => {
            crate::rlp::decode::lemma_string_enc_round_trip(v@, r);
        },
        Node::Empty => {
            crate::rlp::decode::lemma_string_enc_round_trip(Seq::<u8>::empty(), r);
            assert(string_enc(Seq::<u8>::empty()) =~= seq![0x80u8]);
            assert(node_ref(c) =~= string_enc(Seq::<u8>::empty()));
        },
    }
}

/// Builds `stored_children` from pointwise facts.
pub proof fn lemma_stored_children_build(cs: Seq<Node>, i: int)
    requires
        0 <= i <= cs.len(),
        forall|j: int| 0 <= j < i ==> stored_ref(#[trigger] cs[j]),
    ensures
        stored_children(cs, i),
    decreases i,
{
    if i > 0 {
        lemma_stored_children_build(cs, i - 1);
    }
}

/// Builds `nev_children` from pointwise facts.
pub proof fn lemma_nev_children_build(cs: Seq<Node>, i: int)
    requires
        0 <= i <= cs.len(),
        forall|j: int| 0 <= j < i ==> no_empty_values(#[trigger] cs[j]),
    ensures
        nev_children(cs, i),
    decreases i,
{
    if i > 0 {
        lemma_nev_children_build(cs, i - 1);
    }
}

/// Pointwise access to `stored_children`.
pub proof fn lemma_stored_children_index(cs: Seq<Node>, i: int, j: int)
    requires
        stored_children(cs, i),
        0 <= j < i <= cs.len(),
    ensures
        stored_ref(cs[j]),
    decreases i,
{
    if j < i - 1 {
        lemma_stored_children_index(cs, i - 1, j);
    }
}

/// Pointwise access to `nev_children`.
pub proof fn lemma_nev_children_index(cs: Seq<Node>, i: int, j: int)
    requires
        nev_children(cs, i),
        0 <= j < i <= cs.len(),
    ensures
        no_empty_values(cs[j]),
    decreases i,
{
    if j < i - 1 {
        lemma_nev_children_index(cs, i - 1, j);
    }
}

/// A reference is never empty.
proof fn lemma_ref_len(c: Node)
    ensures
        node_ref(c).len() >= 1,
{
}

/// The canonical list encoding is injective.
pub proof fn lemma_list_enc_injective(p1: Seq<u8>, p2: Seq<u8>)
    requires
        p1.len() < 0x1_0000_0000_0000_0000,
        p2.len() < 0x1_0000_0000_0000_0000,
        list_enc(p1) == list_enc(p2),
    ensures
        p1 == p2,
{
    crate::rlp::decode::lemma_list_enc_round_trip(p1, Seq::empty());
    crate::rlp::decode::lemma_list_enc_round_trip(p2, Seq::empty());
    assert(list_enc(p1) + Seq::<u8>::empty() =~= list_enc(p1));
    assert(list_enc(p2) + Seq::<u8>::empty() =~= list_enc(p2));
}

/// Peeling the reference concatenation from the left.
pub proof fn lemma_ncc_left(cs: Seq<Node>, i: int)
    requires
        1 <= i <= cs.len(),
    ensures
        node_children_enc(cs, i) == node_ref(cs[0]) + node_children_enc(cs.skip(1), i - 1),
    decreases i,
{
    if i == 1 {
        assert(node_children_enc(cs, 0) =~= Seq::<u8>::empty());
        assert(node_children_enc(cs.skip(1), 0) =~= Seq::<u8>::empty());
        assert(node_children_enc(cs, 1) =~= node_ref(cs[0]) + node_children_enc(cs.skip(1), 0));
    } else {
        lemma_ncc_left(cs, i - 1);
        assert(cs.skip(1)[i - 2] == cs[i - 1]);
        assert(node_children_enc(cs.skip(1), i - 1) == node_children_enc(cs.skip(1), i - 2)
            + node_ref(cs[i - 1]));
        assert(node_children_enc(cs, i) =~= node_ref(cs[0]) + node_children_enc(
            cs.skip(1),
            i - 1,
        ));
    }
}

/// A reference followed by counted values counts one more value.
proof fn lemma_count_prepend_ref(c: Node, rest: Seq<u8>)
    requires
        wf_node(c),
        stored_ref(c),
        node_enc(c).len() < usize::MAX,
        count_values_spec(rest).is_some(),
        count_values_spec(rest).unwrap() >= 0,
    ensures
        count_values_spec(node_ref(c) + rest) == Some(
            count_values_spec(rest).unwrap() + 1,
        ),
{
    lemma_ref_splits(c, rest);
    let b = node_ref(c) + rest;
    let (k, ts, cs) = crate::rlp::decode::read_kind_spec(b).unwrap();
    assert(b.skip(ts + cs) == rest);
    assert(1 <= ts + cs <= b.len());
    assert(b.len() > 0) by {
        lemma_ref_len(c);
    }
}

/// A string followed by counted values counts one more value.
proof fn lemma_count_prepend_string(p: Seq<u8>, rest: Seq<u8>)
    requires
        p.len() < 0x1_0000_0000_0000_0000,
        count_values_spec(rest).is_some(),
        count_values_spec(rest).unwrap() >= 0,
    ensures
        count_values_spec(string_enc(p) + rest) == Some(count_values_spec(rest).unwrap() + 1),
{
    crate::rlp::decode::lemma_string_enc_round_trip(p, rest);
    let b = string_enc(p) + rest;
    let (k, ts, cs) = crate::rlp::decode::read_kind_spec(b).unwrap();
    assert(b.skip(ts + cs) == rest);
    assert(1 <= ts + cs <= b.len());
    assert(b.len() > 0);
}

/// The child references of a branch, from slot `j` on, count one value per
/// slot.
pub proof fn lemma_count_children(cs: Seq<Node>, j: int)
    requires
        cs.len() == 17,
        crate::trie::node::wf_children(cs, 17),
        stored_children(cs, 17),
        crate::trie::hash::enc_bounded_children(cs, 17),
        0 <= j <= 17,
    ensures
        count_values_spec(node_children_enc(cs.skip(j), 17 - j)) == Some(17 - j),
    decreases 17 - j,
{
    if j == 17 {
        assert(node_children_enc(cs.skip(17), 0) =~= Seq::<u8>::empty());
    } else {
        lemma_count_children(cs, j + 1);
        lemma_wf_children_index(cs, 17, j);
        lemma_stored_children_index(cs, 17, j);
        crate::trie::hash::lemma_enc_bounded_children_index(cs, 17, j);
        lemma_ncc_left(cs.skip(j), 17 - j);
        assert(cs.skip(j)[0] == cs[j]);
        assert(cs.skip(j).skip(1) =~= cs.skip(j + 1));
        lemma_count_prepend_ref(cs[j], node_children_enc(cs.skip(j + 1), 16 - j));
        crate::rlp::decode::lemma_count_values_nonneg(
            node_children_enc(cs.skip(j + 1), 16 - j),
        );
    }
}

/// Two references heading the same byte stream are the same reference to
/// shape-equal subtrees, leaving the same remainder. The one genuinely
/// ambiguous pairing — a 32-byte value against a hash reference — is ruled
/// out by where values may appear.
proof fn lemma_ref_injective(c1: Node, r1: Seq<u8>, c2: Node, r2: Seq<u8>)
    requires
        wf_node(c1),
        wf_node(c2),
        stored_ref(c1),
        stored_ref(c2),
        no_empty_values(c1),
        no_empty_values(c2),
        crate::trie::hash::enc_bounded(c1),
        crate::trie::hash::enc_bounded(c2),
        node_ref(c1) + r1 == node_ref(c2) + r2,
        !(c1 is ValueNode && c2 is HashNode),
        !(c2 is ValueNode && c1 is HashNode),
    ensures
        same_shape(c1, c2),
        node_ref(c1) == node_ref(c2),
        r1 == r2,
    decreases c1, 19int,
{
    lemma_ref_splits(c1, r1);
    lemma_ref_splits(c2, r2);
    let b = node_ref(c1) + r1;
    let (k1, ct1, rr1) = split_spec(b).unwrap();
    match c1 {
        Node::ShortNode(_) | Node::FullNode(_) => {
            assert(c2 is ShortNode || c2 is FullNode) by {
                if c2 is HashNode || c2 is ValueNode || c2 is Empty {
                    assert(k1 == Kind::List);
                }
            }
            assert(node_enc(c1) == list_enc(ct1) && node_enc(c2) == list_enc(ct1)) by {
                assert(node_ref(c1) == node_enc(c1));
                assert(node_ref(c2) == node_enc(c2));
            }
            lemma_enc_injective_nodes(c1, c2);
            assert(node_ref(c1) =~= node_ref(c2));
            lemma_concat_cancel(node_ref(c1), r1, node_ref(c2), r2);
        },
        Node::HashNode(h1) => {
            assert(!(c2 is ShortNode || c2 is FullNode)) by {
                if c2 is ShortNode || c2 is FullNode {
                    assert(k1 == Kind::String);
                }
            }
            assert(!(c2 is Empty)) by {
                if c2 is Empty {
                    assert(ct1 == h1@ && ct1 == Seq::<u8>::empty());
                }
            }
            let h2 = c2->HashNode_0;
            assert(h1@ == ct1 && h2@ == ct1);
            assert(node_ref(c1) =~= node_ref(c2));
            lemma_concat_cancel(node_ref(c1), r1, node_ref(c2), r2);
        },
        Node::ValueNode(v1) => {
            assert(c2 is ValueNode || c2 is Empty);
            assert(!(c2 is Empty)) by {
                if c2 is Empty {
                    assert(ct1 == v1@ && ct1 == Seq::<u8>::empty());
                }
            }
            let v2 = c2->ValueNode_0;
            assert(v1@ == ct1 && v2@ == ct1);
            assert(node_ref(c1) =~= node_ref(c2));
            lemma_concat_cancel(node_ref(c1), r1, node_ref(c2), r2);
        },
        Node::Empty => {
            assert(!(c2 is ShortNode || c2 is FullNode)) by {
                if c2 is ShortNode || c2 is FullNode {
                    assert(k1 == Kind::String);
                }
            }
            assert(!(c2 is HashNode)) by {
                if c2 is HashNode {
                    assert(ct1 == Seq::<u8>::empty() && ct1 == c2->HashNode_0@);
                }
            }
            assert(!(c2 is ValueNode)) by {
                if c2 is ValueNode {
                    assert(ct1 == Seq::<u8>::empty() && ct1 == c2->ValueNode_0@);
                }
            }
            assert(node_ref(c1) =~= node_ref(c2));
            lemma_concat_cancel(node_ref(c1), r1, node_ref(c2), r2);
        },
    }
}

/// Concatenation cancels on an equal first part.
proof fn lemma_concat_cancel(a1: Seq<u8>, b1: Seq<u8>, a2: Seq<u8>, b2: Seq<u8>)
    requires
        a1 + b1 == a2 + b2,
        a1 == a2,
    ensures
        b1 == b2,
{
    assert(b1 =~= (a1 + b1).skip(a1.len() as int));
    assert(b2 =~= (a2 + b2).skip(a2.len() as int));
}

/// Pairwise shape equality of branch children from slot `j` on, given
/// equal reference concatenations.
proof fn lemma_children_injective(cs1: Seq<Node>, cs2: Seq<Node>, j: int)
    requires
        cs1.len() == 17,
        cs2.len() == 17,
        crate::trie::node::wf_children(cs1, 17),
        crate::trie::node::wf_children(cs2, 17),
        stored_children(cs1, 17),
        stored_children(cs2, 17),
        nev_children(cs1, 17),
        nev_children(cs2, 17),
        crate::trie::hash::enc_bounded_children(cs1, 17),
        crate::trie::hash::enc_bounded_children(cs2, 17),
        // values appear only in the final slot, never beside hashes
        forall|l: int| 0 <= l < 16 ==> !((#[trigger] cs1[l]) is ValueNode),
        forall|l: int| 0 <= l < 16 ==> !((#[trigger] cs2[l]) is ValueNode),
        cs1[16] is ValueNode || cs1[16] is Empty,
        cs2[16] is ValueNode || cs2[16] is Empty,
        0 <= j <= 17,
        node_children_enc(cs1.skip(j), 17 - j) == node_children_enc(cs2.skip(j), 17 - j),
    ensures
        forall|l: int| j <= l < 17 ==> same_shape(#[trigger] cs1[l], cs2[l]),
    decreases cs1, 17 - j,
{
    if j < 17 {
        lemma_ncc_left(cs1.skip(j), 17 - j);
        lemma_ncc_left(cs2.skip(j), 17 - j);
        assert(cs1.skip(j)[0] == cs1[j] && cs2.skip(j)[0] == cs2[j]);
        assert(cs1.skip(j).skip(1) =~= cs1.skip(j + 1));
        assert(cs2.skip(j).skip(1) =~= cs2.skip(j + 1));
        lemma_wf_children_index(cs1, 17, j);
        lemma_wf_children_index(cs2, 17, j);
        lemma_stored_children_index(cs1, 17, j);
        lemma_stored_children_index(cs2, 17, j);
        lemma_nev_children_index(cs1, 17, j);
        lemma_nev_children_index(cs2, 17, j);
        crate::trie::hash::lemma_enc_bounded_children_index(cs1, 17, j);
        crate::trie::hash::lemma_enc_bounded_children_index(cs2, 17, j);
        lemma_ref_injective(
            cs1[j],
            node_children_enc(cs1.skip(j + 1), 16 - j),
            cs2[j],
            node_children_enc(cs2.skip(j + 1), 16 - j),
        );
        lemma_children_injective(cs1, cs2, j + 1);
    }
}

/// The canonical encoding is injective on the stored node shapes: two
/// well-formed stored nodes without empty values that encode identically
/// have the same shape. Together with the decoder's guarantee that it
/// accepts exactly the canonical encoding of its result, decoding the
/// encoding of a stored node recovers that node's shape.
#[verifier::rlimit(100)]
pub proof fn lemma_enc_injective_nodes(a: Node, b: Node)
    requires
        a is ShortNode || a is FullNode,
        b is ShortNode || b is FullNode,
        wf_node(a),
        wf_node(b),
        stored_form(a),
        stored_form(b),
        no_empty_values(a),
        no_empty_values(b),
        crate::trie::hash::enc_bounded(a),
        crate::trie::hash::enc_bounded(b),
        node_enc(a) == node_enc(b),
    ensures
        same_shape(a, b),
    decreases a, 18int,
{
    let p1 = match a {
        Node::ShortNode(s1) => string_enc(crate::trie::encoding::hex_to_compact_spec(s1.key@))
            + node_ref(*s1.val),
        _ => node_children_enc(a->FullNode_0.children@, 17),
    };
    let p2 = match b {
        Node::ShortNode(s2) => string_enc(crate::trie::encoding::hex_to_compact_spec(s2.key@))
            + node_ref(*s2.val),
        _ => node_children_enc(b->FullNode_0.children@, 17),
    };
    assert(node_enc(a) == list_enc(p1) && node_enc(b) == list_enc(p2));
    assert(p1 == p2) by {
        lemma_list_enc_injective(p1, p2);
    }
    // the payload's value count tells a two-element node from a branch
    match a {
        Node::ShortNode(s1) => {
            assert(count_values_spec(p1) == Some(2int)) by {
                lemma_compact_len_bounded(a);
                lemma_short_payload_counts_two(s1.key@, *s1.val);
            }
            match b {
                Node::ShortNode(s2) => {
                    assert(count_values_spec(p2) == Some(2int)) by {
                        lemma_compact_len_bounded(b);
                        lemma_short_payload_counts_two(s2.key@, *s2.val);
                    }
                    let c1 = crate::trie::encoding::hex_to_compact_spec(s1.key@);
                    let c2 = crate::trie::encoding::hex_to_compact_spec(s2.key@);
                    crate::rlp::decode::lemma_string_enc_round_trip(c1, node_ref(*s1.val));
                    crate::rlp::decode::lemma_string_enc_round_trip(c2, node_ref(*s2.val));
                    assert(c1 == c2 && node_ref(*s1.val) == node_ref(*s2.val));
                    assert(s1.key@ == s2.key@) by {
                        crate::trie::encoding::lemma_compact_round_trip(s1.key@);
                        crate::trie::encoding::lemma_compact_round_trip(s2.key@);
                    }
                    lemma_ref_injective(
                        *s1.val,
                        Seq::empty(),
                        *s2.val,
                        Seq::empty(),
                    );
                },
                _ => {
                    assert(count_values_spec(p2) == Some(17int)) by {
                        let cs = b->FullNode_0.children@;
                        lemma_count_children(cs, 0);
                        assert(cs.skip(0) =~= cs);
                    }
                    assert(false);
                },
            }
        },
        _ => {
            let cs1 = a->FullNode_0.children@;
            assert(count_values_spec(p1) == Some(17int)) by {
                lemma_count_children(cs1, 0);
                assert(cs1.skip(0) =~= cs1);
            }
            match b {
                Node::ShortNode(s2) => {
                    assert(count_values_spec(p2) == Some(2int)) by {
                        lemma_compact_len_bounded(b);
                        lemma_short_payload_counts_two(s2.key@, *s2.val);
                    }
                    assert(false);
                },
                _ => {
                    let cs2 = b->FullNode_0.children@;
                    assert(cs1.skip(0) =~= cs1 && cs2.skip(0) =~= cs2);
                    lemma_children_injective(cs1, cs2, 0);
                    assert(shape_children(cs1, cs2, 17)) by {
                        lemma_shape_children_build(cs1, cs2, 17);
                    }
                },
            }
        },
    }
}

/// A bounded short node has a bounded compact key.
pub proof fn lemma_compact_len_bounded(n: Node)
    requires
        n is ShortNode,
        crate::trie::hash::enc_bounded(n),
    ensures
        crate::trie::encoding::hex_to_compact_spec(n->ShortNode_0.key@).len()
            < 0x1_0000_0000_0000_0000,
{
    let sn = n->ShortNode_0;
    let c = crate::trie::encoding::hex_to_compact_spec(sn.key@);
    let payload = string_enc(c) + node_ref(*sn.val);
    assert(node_enc(n) == list_enc(payload));
    assert(list_enc(payload).len() >= payload.len());
    assert(string_enc(c).len() >= c.len());
    assert(node_enc(n).len() < 0x1_0000_0000_0000_0000);
}

/// A two-element payload counts two values.
pub proof fn lemma_short_payload_counts_two(key: Seq<u8>, c: Node)
    requires
        crate::trie::encoding::is_valid_hex_key(key),
        wf_node(c),
        stored_ref(c),
        crate::trie::hash::enc_bounded(c),
        crate::trie::encoding::hex_to_compact_spec(key).len() < 0x1_0000_0000_0000_0000,
    ensures
        count_values_spec(
            string_enc(crate::trie::encoding::hex_to_compact_spec(key)) + node_ref(c),
        ) == Some(2int),
{
    assert(node_ref(c) + Seq::<u8>::empty() =~= node_ref(c));
    lemma_count_prepend_ref(c, Seq::empty());
    lemma_count_prepend_string(
        crate::trie::encoding::hex_to_compact_spec(key),
        node_ref(c),
    );
}

/// Builds `shape_children` from pointwise shape equality.
proof fn lemma_shape_children_build(cs1: Seq<Node>, cs2: Seq<Node>, i: int)
    requires
        cs1.len() == cs2.len(),
        forall|j: int| 0 <= j < i ==> same_shape(#[trigger] cs1[j], cs2[j]),
        i <= cs1.len(),
    ensures
        shape_children(cs1, cs2, i),
    decreases i,
{
    if i > 0 {
        lemma_shape_children_build(cs1, cs2, i - 1);
    }
}

/// A node the strict decoder reproduces from its canonical encoding: a
/// well-formed short or full node in stored form, without empty values,
/// within the machine bound.
pub open spec fn node_decodable(n: Node) -> bool {
    &&& (n is ShortNode || n is FullNode)
    &&& wf_node(n)
    &&& stored_form(n)
    &&& no_empty_values(n)
    &&& crate::trie::hash::enc_bounded(n)
}

/// A child reference the strict decoder reproduces.
pub open spec fn ref_decodable(c: Node) -> bool {
    &&& !(c is ValueNode)
    &&& wf_node(c)
    &&& stored_ref(c)
    &&& no_empty_values(c)
    &&& crate::trie::hash::enc_bounded(c)
}

/// Every encoding has at least its header byte.
pub proof fn lemma_node_enc_pos(n: Node)
    ensures
        node_enc(n).len() >= 1,
{
}

/// Under the stored form, a reference is the node's own encoding.
pub proof fn lemma_stored_ref_is_enc(n: Node)
    requires
        stored_ref(n),
    ensures
        node_ref(n) == node_enc(n),
{
}

/// Each reference fits inside the concatenation that contains it.
proof fn lemma_ncc_part_le(cs: Seq<Node>, i: int, j: int)
    requires
        0 <= j < i <= cs.len(),
    ensures
        node_ref(cs[j]).len() <= node_children_enc(cs, i).len(),
    decreases i,
{
    if j < i - 1 {
        lemma_ncc_part_le(cs, i - 1, j);
    }
}

/// A small stored node is within the machine bound, children included.
pub proof fn lemma_stored_small_bounded(n: Node)
    requires
        node_enc(n).len() <= 0x1000,
        (n is ShortNode || n is FullNode) ==> stored_form(n),
    ensures
        crate::trie::hash::enc_bounded(n),
    decreases n, 18int,
{
    match n {
        Node::ShortNode(sn) => {
            let payload = string_enc(crate::trie::encoding::hex_to_compact_spec(sn.key@))
                + node_ref(*sn.val);
            assert(node_enc(n) == list_enc(payload));
            assert(node_enc(n).len() >= 1 + payload.len());
            lemma_stored_ref_is_enc(*sn.val);
            assert(node_enc(*sn.val).len() <= payload.len());
            lemma_stored_small_bounded(*sn.val);
        },
        Node::FullNode(f) => {
            let cs = f.children@;
            let payload = node_children_enc(cs, 17);
            assert(node_enc(n) == list_enc(payload));
            assert(node_enc(n).len() >= 1 + payload.len());
            if cs.len() >= 17 {
                assert forall|j: int| 0 <= j < 17 implies crate::trie::hash::enc_bounded(
                    #[trigger] cs[j],
                ) by {
                    lemma_stored_children_index(cs, 17, j);
                    lemma_stored_ref_is_enc(cs[j]);
                    lemma_ncc_part_le(cs, 17, j);
                    assert(decreases_to!(n => f.children));
                    assert(decreases_to!(f.children => f.children@));
                    assert(decreases_to!(f.children@ => f.children@[j]));
                    lemma_stored_small_bounded(cs[j]);
                }
                crate::trie::hash::lemma_enc_bounded_children_build(cs, 17);
            } else {
                assert(crate::trie::hash::enc_bounded_children(cs, 17));
            }
        },
        _ => {},
    }
}

/// Equal references name nodes that are absent together.
pub proof fn lemma_ref_empty_iff(c1: Node, c2: Node)
    requires
        node_ref(c1) == node_ref(c2),
        wf_node(c1),
        wf_node(c2),
        stored_ref(c1),
        stored_ref(c2),
        no_empty_values(c1),
        no_empty_values(c2),
        node_enc(c1).len() < usize::MAX,
        node_enc(c2).len() < usize::MAX,
    ensures
        c1 is Empty <==> c2 is Empty,
{
    lemma_ref_splits(c1, Seq::empty());
    lemma_ref_splits(c2, Seq::empty());
    assert(node_ref(c1) + Seq::<u8>::empty() =~= node_ref(c2) + Seq::<u8>::empty());
}

} // verus!
