//! Maps each node variant to its canonical RLP form: a branch is a
//! seventeen-element list, an extension or leaf a two-element list, hash
//! references and values are strings, and an absent child is the empty
//! string. The functions here encode *collapsed* nodes, whose keys are
//! already compact and whose large children are already hash references.

use vstd::prelude::*;

use crate::rlp::encoder_buffer::EMPTY_STRING;
use crate::rlp::model::{list_enc, string_enc};
use crate::rlp::rlp_encoder::RlpEncoder;
use crate::trie::node::{clone_bytes, FullNode, Node, ShortNode};

verus! {

/// The canonical RLP bytes of a collapsed node.
pub open spec fn enc_plain(n: Node) -> Seq<u8>
    decreases n, 18int,
{
    match n {
        Node::Empty => seq![0x80u8],
        Node::HashNode(h) => string_enc(h@),
        Node::ValueNode(v) => string_enc(v@),
        Node::ShortNode(sn) => list_enc(string_enc(sn.key@) + enc_plain(*sn.val)),
        Node::FullNode(f) => list_enc(enc_children(f.children@, 17)),
    }
}

/// The concatenated encodings of the first `i` children.
pub open spec fn enc_children(cs: Seq<Node>, i: int) -> Seq<u8>
    decreases cs, i,
{
    if i <= 0 || i > cs.len() {
        Seq::empty()
    } else {
        enc_children(cs, i - 1) + enc_plain(cs[i - 1])
    }
}

/// Every branch below the node has exactly seventeen child slots, which
/// the encoder relies on.
pub open spec fn full_arity_ok(n: Node) -> bool
    decreases n, 18int,
{
    match n {
        Node::FullNode(f) => f.children@.len() == 17 && arity_children(f.children@, 17),
        Node::ShortNode(sn) => full_arity_ok(*sn.val),
        _ => true,
    }
}

/// The first `i` children have well-arranged branches below them.
pub open spec fn arity_children(cs: Seq<Node>, i: int) -> bool
    decreases cs, i,
{
    if i <= 0 || i > cs.len() {
        true
    } else {
        arity_children(cs, i - 1) && full_arity_ok(cs[i - 1])
    }
}

/// Pointwise access to `arity_children`.
pub proof fn lemma_arity_children_index(cs: Seq<Node>, i: int, j: int)
    requires
        arity_children(cs, i),
        0 <= j < i <= cs.len(),
    ensures
        full_arity_ok(cs[j]),
    decreases i,
{
    if j < i - 1 {
        lemma_arity_children_index(cs, i - 1, j);
    }
}

/// Builds `arity_children` from pointwise facts.
pub proof fn lemma_arity_children_build(cs: Seq<Node>, i: int)
    requires
        0 <= i <= cs.len(),
        forall|j: int| 0 <= j < i ==> full_arity_ok(#[trigger] cs[j]),
    ensures
        arity_children(cs, i),
    decreases i,
{
    if i > 0 {
        lemma_arity_children_build(cs, i - 1);
    }
}

/// Every encoding is at least one byte.
pub proof fn lemma_enc_plain_len(n: Node)
    ensures
        enc_plain(n).len() >= 1,
{
}

/// Child encodings only grow the concatenation.
pub proof fn lemma_enc_children_mono(cs: Seq<Node>, i: int, j: int)
    requires
        0 <= i <= j <= cs.len(),
    ensures
        enc_children(cs, i).len() <= enc_children(cs, j).len(),
    decreases j - i,
{
    if i < j {
        lemma_enc_children_mono(cs, i, j - 1);
        assert(enc_children(cs, j) == enc_children(cs, j - 1) + enc_plain(cs[j - 1]));
    }
}

impl FullNode {
    /// Encodes a collapsed branch: a list of the seventeen child encodings.
    pub fn encode(&self, rlp_enc: &mut RlpEncoder)
        requires
            old(rlp_enc).buffer.inv(),
            full_arity_ok(Node::FullNode(*self)),
            old(rlp_enc).buffer.used() + 18 * enc_plain(
                Node::FullNode(*self),
            ).len() <= usize::MAX,
        ensures
            final(rlp_enc).buffer.inv(),
            final(rlp_enc).buffer.open_lists() == old(rlp_enc).buffer.open_lists(),
            final(rlp_enc).buffer.used() <= old(rlp_enc).buffer.used() + enc_plain(
                Node::FullNode(*self),
            ).len(),
            forall|k: int| 0 <= k < old(rlp_enc).buffer.depth() ==> final(rlp_enc).buffer.frame(k)
                == old(rlp_enc).buffer.frame(k),
            final(rlp_enc).buffer.top() == old(rlp_enc).buffer.top() + enc_plain(
                Node::FullNode(*self),
            ),
        decreases *self, 0int,
    {
        let ghost whole = enc_plain(Node::FullNode(*self));
        let ghost payload = enc_children(self.children@, 17);
        proof {
            assert(whole == list_enc(payload));
            assert(whole.len() >= 1 + payload.len());
        }
        let offset = rlp_enc.list();
        let ghost base = *rlp_enc;
        //Encode all the children in the Full Node
        let mut i: usize = 0;
        while i < 17
            invariant
                rlp_enc.buffer.inv(),
                self.children@.len() == 17,
                i <= 17,
                rlp_enc.buffer.open_lists() == base.buffer.open_lists(),
                rlp_enc.buffer.used() <= base.buffer.used() + enc_children(
                    self.children@,
                    i as int,
                ).len(),
                base.buffer.used() <= old(rlp_enc).buffer.used() + 9,
                old(rlp_enc).buffer.used() + 18 * enc_plain(
                    Node::FullNode(*self),
                ).len() <= usize::MAX,
                whole == enc_plain(Node::FullNode(*self)),
                payload == enc_children(self.children@, 17),
                whole.len() >= 1 + payload.len(),
                full_arity_ok(Node::FullNode(*self)),
                forall|k: int| 0 <= k < base.buffer.depth() ==> rlp_enc.buffer.frame(k)
                    == base.buffer.frame(k),
                rlp_enc.buffer.top() == base.buffer.top() + enc_children(
                    self.children@,
                    i as int,
                ),
            decreases 17 - i,
        {
            proof {
                lemma_enc_children_mono(self.children@, i as int, 17);
                lemma_enc_children_mono(self.children@, i + 1, 17);
                assert(enc_children(self.children@, i + 1) == enc_children(
                    self.children@,
                    i as int,
                ) + enc_plain(self.children@[i as int]));
                assert(decreases_to!(*self => self.children));
                assert(decreases_to!(self.children => self.children@));
                assert(decreases_to!(self.children@ => self.children@[i as int]));
                lemma_arity_children_index(self.children@, 17, i as int);
                assert(enc_children(self.children@, i as int).len() + enc_plain(
                    self.children@[i as int],
                ).len() <= payload.len());
                assert(rlp_enc.buffer.used() + 18 * enc_plain(
                    self.children@[i as int],
                ).len() <= usize::MAX);
            }
            let child = &self.children[i];
            child.encode(rlp_enc);
            i = i + 1;
            proof {
                assert(rlp_enc.buffer.top() =~= base.buffer.top() + enc_children(
                    self.children@,
                    i as int,
                ));
            }
        }
        proof {
            assert(enc_children(self.children@, 17).len() == rlp_enc.buffer.top().len()
                - base.buffer.top().len());
            assert(base.buffer.top() =~= Seq::<u8>::empty());
            assert(rlp_enc.buffer.top() =~= payload);
        }
        rlp_enc.list_end(offset);
        proof {
            assert(final(rlp_enc).buffer.top() =~= old(rlp_enc).buffer.top() + whole);
        }
    }
}

impl ShortNode {
    /// Encodes a collapsed extension or leaf: a two-element list of the
    /// compact key and the child's encoding.
    pub fn encode(&self, rlp_enc: &mut RlpEncoder)
        requires
            old(rlp_enc).buffer.inv(),
            full_arity_ok(Node::ShortNode(*self)),
            old(rlp_enc).buffer.used() + 18 * enc_plain(
                Node::ShortNode(*self),
            ).len() <= usize::MAX,
        ensures
            final(rlp_enc).buffer.inv(),
            final(rlp_enc).buffer.open_lists() == old(rlp_enc).buffer.open_lists(),
            final(rlp_enc).buffer.used() <= old(rlp_enc).buffer.used() + enc_plain(
                Node::ShortNode(*self),
            ).len(),
            forall|k: int| 0 <= k < old(rlp_enc).buffer.depth() ==> final(rlp_enc).buffer.frame(k)
                == old(rlp_enc).buffer.frame(k),
            final(rlp_enc).buffer.top() == old(rlp_enc).buffer.top() + enc_plain(
                Node::ShortNode(*self),
            ),
        decreases *self, 0int,
    {
        let ghost whole = enc_plain(Node::ShortNode(*self));
        let ghost payload = string_enc(self.key@) + enc_plain(*self.val);
        proof {
            assert(whole == list_enc(payload));
            assert(whole.len() >= 1 + payload.len());
            lemma_enc_plain_len(*self.val);
        }
        let offset = rlp_enc.list();
        let ghost base = *rlp_enc;
        rlp_enc.write_bytes(clone_bytes(&self.key));
        proof {
            assert(decreases_to!(*self => *self.val));
        }
        (&*self.val).encode(rlp_enc);
        proof {
            assert(rlp_enc.buffer.top() =~= payload);
        }
        rlp_enc.list_end(offset);
        proof {
            assert(final(rlp_enc).buffer.top() =~= old(rlp_enc).buffer.top() + whole);
        }
    }
}

impl Node {
    /// Encodes a collapsed node into the consensus RLP format and returns
    /// the bytes.
    pub fn encode_rlp(&self) -> (r: Vec<u8>)
        requires
            full_arity_ok(*self),
            18 * enc_plain(*self).len() <= usize::MAX,
        ensures
            r@ == enc_plain(*self),
    {
        let mut rlp_enc = RlpEncoder::new();
        self.encode(&mut rlp_enc);
        let mut out: Vec<u8> = Vec::new();
        rlp_enc.append_to_bytes(&mut out);
        out
    }

    /// Encodes a collapsed node into the encoder's current list.
    pub fn encode(&self, rlp_enc: &mut RlpEncoder)
        requires
            old(rlp_enc).buffer.inv(),
            full_arity_ok(*self),
            old(rlp_enc).buffer.used() + 18 * enc_plain(*self).len() <= usize::MAX,
        ensures
            final(rlp_enc).buffer.inv(),
            final(rlp_enc).buffer.open_lists() == old(rlp_enc).buffer.open_lists(),
            final(rlp_enc).buffer.used() <= old(rlp_enc).buffer.used() + enc_plain(*self).len(),
            forall|k: int| 0 <= k < old(rlp_enc).buffer.depth() ==> final(rlp_enc).buffer.frame(k)
                == old(rlp_enc).buffer.frame(k),
            final(rlp_enc).buffer.top() == old(rlp_enc).buffer.top() + enc_plain(*self),
        decreases *self, 1int,
    {
        match self {
            Node::FullNode(n) => {
                n.encode(rlp_enc);
            },
            Node::ShortNode(short_node) => {
                short_node.encode(rlp_enc);
            },
            Node::HashNode(n) => {
                rlp_enc.write_bytes(clone_bytes(n));
            },
            Node::ValueNode(vn) => {
                rlp_enc.write_bytes(clone_bytes(vn));
            },
            Node::Empty => {
                let mut b: Vec<u8> = Vec::new();
                b.push(EMPTY_STRING[0]);
                proof {
                    assert(b@ =~= enc_plain(Node::Empty));
                }
                rlp_enc.write(b);
            },
        }
    }
}

} // verus!
