//! The streaming encoder buffer. Payload bytes and list headers are kept in
//! two parallel structures so that no list is ever re-copied: a growing
//! payload buffer, and a stack of list-head records `{offset, size}`. The
//! final output interleaves each header at its recorded payload offset.
//!
//! The buffer is specified through a stack of *frames*: frame 0 is the
//! completed output, and each open list adds a frame holding the encoded
//! children written so far. Writing appends to the top frame; closing a list
//! pops its frame and appends `header + content` to the frame below.

use vstd::prelude::*;

use crate::rlp::encode::{putint, Listhead};
use crate::rlp::model::{lemma_be_bytes_len, list_header, string_enc, string_header};

verus! {

/// The RLP encoding of the empty string.
pub const EMPTY_STRING: [u8; 1] = [0x80];

/// Length of a list header for content of the given size.
pub open spec fn header_len(size: nat) -> int {
    list_header(size).len() as int
}

/// Assembles payload bytes `s[lo..hi]` and the recorded headers `hs` into
/// encoded output: each header's bytes are emitted at its payload offset.
pub open spec fn assembled(s: Seq<u8>, hs: Seq<Listhead>, lo: int, hi: int) -> Seq<u8>
    decreases hs.len(),
{
    if hs.len() == 0 {
        s.subrange(lo, hi)
    } else {
        s.subrange(lo, hs[0].offset as int) + list_header(hs[0].size as nat)
            + assembled(s, hs.skip(1), hs[0].offset as int, hi)
    }
}

/// Total length of the header bytes of `hs`.
pub open spec fn sum_header(hs: Seq<Listhead>) -> int
    decreases hs.len(),
{
    if hs.len() == 0 {
        0
    } else {
        header_len(hs[0].size as nat) + sum_header(hs.skip(1))
    }
}

/// Sum of the header sizes of the heads in `[lo, hi)` that are closed, that
/// is, not listed among the open indices.
pub open spec fn hsum(open: Seq<int>, hs: Seq<Listhead>, lo: int, hi: int) -> int
    decreases hi - lo,
{
    if lo >= hi {
        0
    } else {
        (if !open.contains(lo) { header_len(hs[lo].size as nat) } else { 0 })
            + hsum(open, hs, lo + 1, hi)
    }
}

/// The streaming encoder buffer.
pub struct RlpBuffer {
    /// Payload data: everything except list headers.
    str: Vec<u8>,
    /// All list headers, open and closed.
    lheads: Vec<Listhead>,
    /// Sum of the header sizes of all closed list headers.
    lhsize: usize,
    /// Indices into `lheads` of the open lists, outermost first.
    open: Ghost<Seq<int>>,
}

impl RlpBuffer {
    /// The indices of the currently open lists, outermost first.
    pub closed spec fn open_lists(self) -> Seq<int> {
        self.open@
    }

    /// How many lists are open.
    pub open spec fn depth(self) -> int {
        self.open_lists().len() as int
    }

    /// Bytes accounted to the buffer: payload, closed headers, and a reserve
    /// of 9 bytes (the largest header) for each open list.
    pub closed spec fn used(self) -> int {
        self.str@.len() + self.lhsize + 9 * self.open@.len()
    }

    /// The buffer's invariant: open indices increase, offsets are monotone
    /// and within the payload, the header-size sum is accounted, and each
    /// open head stores the header-size sum at the time it was opened.
    pub closed spec fn inv(self) -> bool {
        let n = self.lheads@.len() as int;
        &&& (forall|k: int, l: int| 0 <= k < l < self.open@.len() ==> self.open@[k] < self.open@[l])
        &&& (forall|k: int| 0 <= k < self.open@.len() ==> 0 <= #[trigger] self.open@[k] < n)
        &&& (forall|i: int, j: int| 0 <= i <= j < n ==> self.lheads@[i].offset <= self.lheads@[j].offset)
        &&& (forall|i: int| 0 <= i < n ==> #[trigger] self.lheads@[i].offset <= self.str@.len())
        &&& self.lhsize == hsum(self.open@, self.lheads@, 0, n)
        &&& (forall|k: int| 0 <= k < self.open@.len() ==> #[trigger] self.lheads@[self.open@[k]].size
            == hsum(self.open@, self.lheads@, 0, self.open@[k]))
        &&& self.used() <= usize::MAX
    }

    spec fn frame_head_lo(self, k: int) -> int {
        if k == 0 {
            0
        } else {
            self.open@[k - 1] + 1
        }
    }

    spec fn frame_head_hi(self, k: int) -> int {
        if k == self.depth() {
            self.lheads@.len() as int
        } else {
            self.open@[k]
        }
    }

    spec fn frame_lo(self, k: int) -> int {
        if k == 0 {
            0
        } else {
            self.lheads@[self.open@[k - 1]].offset as int
        }
    }

    spec fn frame_hi(self, k: int) -> int {
        if k == self.depth() {
            self.str@.len() as int
        } else {
            self.lheads@[self.open@[k]].offset as int
        }
    }

    /// Frame `k`: the bytes encoded so far at nesting depth `k`. Frame 0 is
    /// the completed output; frame `depth()` is the innermost open list.
    pub closed spec fn frame(self, k: int) -> Seq<u8> {
        assembled(
            self.str@,
            self.lheads@.subrange(self.frame_head_lo(k), self.frame_head_hi(k)),
            self.frame_lo(k),
            self.frame_hi(k),
        )
    }

    /// The top frame: what has been written inside the innermost open list.
    pub open spec fn top(self) -> Seq<u8> {
        self.frame(self.depth())
    }

    /// The assembled output. Meaningful once every list is closed.
    pub open spec fn out(self) -> Seq<u8> {
        self.frame(0)
    }

    /// Payload plus closed-header bytes so far.
    pub closed spec fn total(self) -> int {
        self.str@.len() + self.lhsize
    }

    /// A fresh, empty buffer.
    pub fn new() -> (r: RlpBuffer)
        ensures
            r.inv(),
            r.depth() == 0,
            r.top() == Seq::<u8>::empty(),
            r.used() == 0,
    {
        let r = RlpBuffer {
            str: Vec::new(),
            lheads: Vec::new(),
            lhsize: 0,
            open: Ghost(Seq::empty()),
        };
        proof {
            assert(r.frame(0) =~= Seq::<u8>::empty());
        }
        r
    }

    /// Clears the buffer for reuse.
    pub fn reset(&mut self)
        ensures
            final(self).inv(),
            final(self).depth() == 0,
            final(self).top() == Seq::<u8>::empty(),
            final(self).used() == 0,
    {
        self.str.clear();
        self.lheads.clear();
        self.lhsize = 0;
        proof {
            self.open@ = Seq::empty();
        }
        proof {
            assert(self.frame(0) =~= Seq::<u8>::empty());
        }
    }

    /// Total size of the encoded data, headers included.
    pub fn size(&self) -> (r: usize)
        requires
            self.inv(),
        ensures
            r == self.total(),
            self.depth() == 0 ==> r == self.out().len(),
    {
        proof {
            if self.depth() == 0 {
                let hs = self.lheads@.subrange(0, self.lheads@.len() as int);
                assert(hs =~= self.lheads@);
                lemma_assembled_len(self.str@, self.lheads@, 0, self.str@.len() as int);
                lemma_hsum_closed_sum(self.open@, self.lheads@, 0, self.lheads@.len() as int);
            }
        }
        self.str.len() + self.lhsize
    }

    /// Facts about frame `k`'s regions that follow from the invariant.
    proof fn lemma_frame_bounds(self, k: int)
        requires
            self.inv(),
            0 <= k <= self.depth(),
        ensures
            0 <= self.frame_lo(k) <= self.frame_hi(k) <= self.str@.len(),
            0 <= self.frame_head_lo(k) <= self.frame_head_hi(k) <= self.lheads@.len(),
            ({
                let hs = self.lheads@.subrange(self.frame_head_lo(k), self.frame_head_hi(k));
                &&& (forall|i: int| 0 <= i < hs.len() ==> self.frame_lo(k) <= #[trigger] hs[i].offset
                    <= self.frame_hi(k))
                &&& (forall|i: int, j: int| 0 <= i <= j < hs.len() ==> hs[i].offset <= hs[j].offset)
            }),
    {
        let hlo = self.frame_head_lo(k);
        let hhi = self.frame_head_hi(k);
        if k > 0 {
            assert(0 <= self.open@[k - 1]);
        }
        if k < self.depth() && k > 0 {
            assert(self.open@[k - 1] < self.open@[k]);
        }
        let hs = self.lheads@.subrange(hlo, hhi);
        assert forall|i: int| 0 <= i < hs.len() implies self.frame_lo(k) <= #[trigger] hs[i].offset
            <= self.frame_hi(k) by {
            assert(hs[i] == self.lheads@[hlo + i]);
            if k > 0 {
                assert(self.lheads@[self.open@[k - 1]].offset <= self.lheads@[hlo + i].offset);
            }
            if k < self.depth() {
                assert(self.lheads@[hlo + i].offset <= self.lheads@[self.open@[k]].offset);
            }
        }
        assert forall|i: int, j: int| 0 <= i <= j < hs.len() implies hs[i].offset <= hs[j].offset by {
            assert(hs[i] == self.lheads@[hlo + i] && hs[j] == self.lheads@[hlo + j]);
        }
    }

    /// After appending `ext` to the payload (all else equal), every lower
    /// frame is unchanged and the top frame is extended by `ext`.
    proof fn lemma_frames_after_append(pre: Self, post: Self, ext: Seq<u8>)
        requires
            pre.inv(),
            post.lheads@ == pre.lheads@,
            post.open@ == pre.open@,
            post.lhsize == pre.lhsize,
            post.str@ == pre.str@ + ext,
            post.used() <= usize::MAX,
        ensures
            post.inv(),
            forall|k: int| 0 <= k < pre.depth() ==> post.frame(k) == pre.frame(k),
            post.top() == pre.top() + ext,
    {
        let n = pre.lheads@.len() as int;
        assert(hsum(post.open@, post.lheads@, 0, n) == hsum(pre.open@, pre.lheads@, 0, n));
        assert forall|k: int| 0 <= k < pre.depth() implies post.frame(k) == pre.frame(k) by {
            pre.lemma_frame_bounds(k);
            let hs = pre.lheads@.subrange(pre.frame_head_lo(k), pre.frame_head_hi(k));
            assert(post.frame_head_lo(k) == pre.frame_head_lo(k));
            assert(post.frame_head_hi(k) == pre.frame_head_hi(k));
            assert(post.frame_lo(k) == pre.frame_lo(k));
            assert(post.frame_hi(k) == pre.frame_hi(k));
            lemma_assembled_same_str(
                pre.str@,
                post.str@,
                hs,
                pre.frame_lo(k),
                pre.frame_hi(k),
            );
        }
        let d = pre.depth();
        pre.lemma_frame_bounds(d);
        let hs = pre.lheads@.subrange(pre.frame_head_lo(d), pre.frame_head_hi(d));
        lemma_assembled_extend(pre.str@, ext, hs, pre.frame_lo(d));
        assert(post.frame_hi(d) == pre.str@.len() + ext.len());
        assert(post.top() == pre.top() + ext);
    }

    /// Appends raw, already-encoded bytes to the current list.
    pub fn write(&mut self, bytes: Vec<u8>) -> (len: usize)
        requires
            old(self).inv(),
            old(self).used() + bytes@.len() <= usize::MAX,
        ensures
            final(self).inv(),
            final(self).open_lists() == old(self).open_lists(),
            final(self).used() == old(self).used() + bytes@.len(),
            forall|k: int| 0 <= k < old(self).depth() ==> final(self).frame(k) == old(self).frame(k),
            final(self).top() == old(self).top() + bytes@,
            len == bytes@.len(),
    {
        let mut bytes = bytes;
        let ghost b0 = bytes@;
        let len = bytes.len();
        self.str.append(&mut bytes);
        proof {
            Self::lemma_frames_after_append(*old(self), *self, b0);
        }
        len
    }

    /// Appends the string header for a payload of `size` bytes.
    pub fn encode_string_header(&mut self, size: usize)
        requires
            old(self).inv(),
            old(self).used() + 9 <= usize::MAX,
        ensures
            final(self).inv(),
            final(self).open_lists() == old(self).open_lists(),
            final(self).used() == old(self).used() + string_header(size as nat).len(),
            forall|k: int| 0 <= k < old(self).depth() ==> final(self).frame(k) == old(self).frame(k),
            final(self).top() == old(self).top() + string_header(size as nat),
    {
        proof {
            lemma_be_bytes_len(size as nat);
        }
        Listhead::put_head(&mut self.str, 0x80, 0xB7, size as u64);
        proof {
            Self::lemma_frames_after_append(*old(self), *self, string_header(size as nat));
        }
    }

    /// Appends a byte string in its canonical RLP encoding: a single small
    /// byte stands for itself, anything else gets a string header.
    pub fn write_bytes(&mut self, bytes: Vec<u8>)
        requires
            old(self).inv(),
            old(self).used() + bytes@.len() + 9 <= usize::MAX,
        ensures
            final(self).inv(),
            final(self).open_lists() == old(self).open_lists(),
            final(self).used() == old(self).used() + string_enc(bytes@).len(),
            forall|k: int| 0 <= k < old(self).depth() ==> final(self).frame(k) == old(self).frame(k),
            final(self).top() == old(self).top() + string_enc(bytes@),
    {
        if bytes.len() == 1 && bytes[0] <= 0x7F {
            // fits single byte, no string header
            self.write(bytes);
        } else {
            self.encode_string_header(bytes.len());
            proof {
                assert(string_header(bytes@.len() as nat).len() <= 9) by {
                    lemma_be_bytes_len(bytes@.len() as nat);
                }
            }
            self.write(bytes);
            proof {
                assert(final(self).top() =~= old(self).top() + string_enc(bytes@));
            }
        }
    }

    /// Appends a UTF-8 string in its canonical RLP encoding.
    pub fn write_string(&mut self, s: String)
        requires
            old(self).inv(),
            old(self).used() + vstd::utf8::encode_utf8(s@).len() + 9 <= usize::MAX,
        ensures
            final(self).inv(),
            final(self).open_lists() == old(self).open_lists(),
            forall|k: int| 0 <= k < old(self).depth() ==> final(self).frame(k) == old(self).frame(k),
            final(self).top() == old(self).top() + string_enc(vstd::utf8::encode_utf8(s@)),
    {
        let bytes = vstd::slice::slice_to_vec(s.as_str().as_bytes());
        self.write_bytes(bytes);
    }

    /// Opens a list and returns its index, to be passed to `list_end`.
    pub fn list(&mut self) -> (index: usize)
        requires
            old(self).inv(),
            old(self).used() + 9 <= usize::MAX,
        ensures
            final(self).inv(),
            final(self).open_lists() == old(self).open_lists().push(index as int),
            final(self).used() == old(self).used() + 9,
            forall|k: int| 0 <= k <= old(self).depth() ==> final(self).frame(k) == old(self).frame(k),
            final(self).top() == Seq::<u8>::empty(),
    {
        let ghost pre = *self;
        let index = self.lheads.len();
        self.lheads.push(Listhead { offset: self.str.len(), size: self.lhsize });
        proof {
            self.open@ = self.open@.push(index as int);
        }
        proof {
            let post = *self;
            let n = pre.lheads@.len() as int;
            assert(!pre.open@.contains(n)) by {
                if pre.open@.contains(n) {
                    let k = choose|k: int| 0 <= k < pre.open@.len() && pre.open@[k] == n;
                    assert(pre.open@[k] < n);
                }
            }
            assert forall|j: int| 0 <= j < n implies (post.open@.contains(j) <==> pre.open@.contains(
                j,
            )) by {
                if post.open@.contains(j) {
                    let k = choose|k: int| 0 <= k < post.open@.len() && post.open@[k] == j;
                    if k < pre.open@.len() {
                        assert(pre.open@[k] == j);
                    } else {
                        assert(post.open@[k] == n);
                    }
                }
                if pre.open@.contains(j) {
                    let k = choose|k: int| 0 <= k < pre.open@.len() && pre.open@[k] == j;
                    assert(post.open@[k] == j);
                }
            }
            lemma_hsum_congruent(pre.open@, post.open@, pre.lheads@, post.lheads@, 0, n);
            assert(post.open@.contains(n)) by {
                assert(post.open@[post.open@.len() - 1] == n);
            }
            assert(hsum(post.open@, post.lheads@, 0, n + 1) == hsum(post.open@, post.lheads@, 0, n))
                by {
                lemma_hsum_split(post.open@, post.lheads@, 0, n, n + 1);
                assert(hsum(post.open@, post.lheads@, n + 1, n + 1) == 0);
                assert(hsum(post.open@, post.lheads@, n, n + 1) == 0);
            }
            assert forall|k: int| 0 <= k < post.open@.len() implies #[trigger] post.lheads@[post.open@[k]].size
                == hsum(post.open@, post.lheads@, 0, post.open@[k]) by {
                if k < pre.open@.len() {
                    assert(pre.lheads@[pre.open@[k]].size == hsum(pre.open@, pre.lheads@, 0, pre.open@[k]));
                    lemma_hsum_congruent(pre.open@, post.open@, pre.lheads@, post.lheads@, 0, pre.open@[k]);
                } else {
                    assert(post.open@[k] == n);
                    lemma_hsum_congruent(pre.open@, post.open@, pre.lheads@, post.lheads@, 0, n);
                }
            }
            assert(post.inv());
            assert forall|k: int| 0 <= k <= pre.depth() implies post.frame(k) == pre.frame(k) by {
                pre.lemma_frame_bounds(k);
                assert(post.frame_head_lo(k) == pre.frame_head_lo(k));
                assert(post.frame_head_hi(k) == pre.frame_head_hi(k)) by {
                    if k == pre.depth() {
                        assert(post.frame_head_hi(k) == post.open@[k] == n);
                    }
                }
                assert(post.frame_lo(k) == pre.frame_lo(k));
                assert(post.frame_hi(k) == pre.frame_hi(k)) by {
                    if k == pre.depth() {
                        assert(post.frame_hi(k) == post.lheads@[n].offset);
                    }
                }
                assert(post.lheads@.subrange(pre.frame_head_lo(k), pre.frame_head_hi(k))
                    =~= pre.lheads@.subrange(pre.frame_head_lo(k), pre.frame_head_hi(k)));
            }
            assert(post.frame(post.depth()) =~= Seq::<u8>::empty()) by {
                assert(post.frame_head_lo(post.depth()) == n + 1);
                assert(post.frame_head_hi(post.depth()) == n + 1);
                assert(post.lheads@.subrange(n + 1, n + 1) =~= Seq::<Listhead>::empty());
                assert(post.frame_lo(post.depth()) == post.lheads@[n].offset);
                assert(post.frame_hi(post.depth()) == post.str@.len());
            }
        }
        index
    }

    /// Closes the list opened at `index`: its header size becomes the size
    /// of everything written since, and the header is accounted.
    pub fn list_end(&mut self, index: usize)
        requires
            old(self).inv(),
            old(self).depth() > 0,
            old(self).open_lists().last() == index as int,
        ensures
            final(self).inv(),
            final(self).open_lists() == old(self).open_lists().drop_last(),
            final(self).used() <= old(self).used(),
            final(self).used() == old(self).used() - 9 + list_header(
                old(self).top().len() as nat,
            ).len(),
            forall|k: int| 0 <= k < old(self).depth() - 1 ==> final(self).frame(k) == old(self).frame(k),
            final(self).top() == old(self).frame(old(self).depth() - 1)
                + list_header(old(self).top().len() as nat) + old(self).top(),
    {
        let ghost pre = *self;
        let ghost n = pre.lheads@.len() as int;
        let ghost d = pre.depth();
        proof {
            assert(pre.open@[d - 1] == index as int);
            assert(0 <= (index as int) && (index as int) < n);
        }
        let size = self.size();
        let offset = self.lheads[index].offset;
        let stored = self.lheads[index].size;
        proof {
            // index is open, everything after it is closed
            assert forall|j: int| index < j < n implies !pre.open@.contains(j) by {
                if pre.open@.contains(j) {
                    let k = choose|k: int| 0 <= k < pre.open@.len() && pre.open@[k] == j;
                    if k < d - 1 {
                        assert(pre.open@[k] < pre.open@[d - 1]);
                    }
                }
            }
            lemma_hsum_split(pre.open@, pre.lheads@, 0, index as int, n);
            lemma_hsum_split(pre.open@, pre.lheads@, index as int, index + 1, n);
            lemma_hsum_nonneg(pre.open@, pre.lheads@, index + 1, n);
            assert(pre.open@.contains(index as int));
            assert(hsum(pre.open@, pre.lheads@, index as int, index + 1) == 0);
            assert(stored == hsum(pre.open@, pre.lheads@, 0, index as int));
            // the top frame's length
            pre.lemma_frame_bounds(d);
            let hs = pre.lheads@.subrange(index + 1, n);
            assert(pre.frame_head_lo(d) == index + 1);
            lemma_assembled_len(pre.str@, hs, offset as int, pre.str@.len() as int);
            lemma_hsum_closed_sum_free(pre.open@, pre.lheads@, index + 1, n);
            assert(pre.top().len() == (pre.str@.len() - offset) + hsum(
                pre.open@,
                pre.lheads@,
                index + 1,
                n,
            ));
            assert(offset + stored <= size);
        }
        let newsize = size - offset - stored;
        proof {
            assert(newsize == pre.top().len());
        }
        let elem = &mut self.lheads[index];
        elem.size = newsize;
        if newsize < 56 {
            self.lhsize = self.lhsize + 1;  // length encoded into kind tag
        } else {
            proof {
                lemma_be_bytes_len(newsize as nat);
            }
            let lenbytes = putint(newsize as u64);
            self.lhsize = self.lhsize + 1 + lenbytes.len();
        }
        proof {
            self.open@ = self.open@.drop_last();
        }
        proof {
            let post = *self;
            let hlen = header_len(newsize as nat);
            assert(hlen <= 9) by {
                lemma_be_bytes_len(newsize as nat);
            }
            assert(post.lhsize == pre.lhsize + hlen);
            assert(post.lheads@ =~= pre.lheads@.update(index as int, Listhead { offset, size: newsize }));
            assert forall|j: int| 0 <= j < n implies (post.open@.contains(j) <==> (j != index as int
                && pre.open@.contains(j))) by {
                if post.open@.contains(j) {
                    let k = choose|k: int| 0 <= k < post.open@.len() && post.open@[k] == j;
                    assert(pre.open@[k] == j);
                    if j == index as int {
                        assert(pre.open@[k] == pre.open@[d - 1] && k < d - 1);
                    }
                }
                if pre.open@.contains(j) && j != index as int {
                    let k = choose|k: int| 0 <= k < pre.open@.len() && pre.open@[k] == j;
                    assert(k != d - 1);
                    assert(post.open@[k] == j);
                }
            }
            // lhsize accounting
            lemma_hsum_split(post.open@, post.lheads@, 0, index as int, n);
            lemma_hsum_split(post.open@, post.lheads@, index as int, index + 1, n);
            lemma_hsum_congruent(pre.open@, post.open@, pre.lheads@, post.lheads@, 0, index as int);
            lemma_hsum_congruent(pre.open@, post.open@, pre.lheads@, post.lheads@, index + 1, n);
            assert(!post.open@.contains(index as int));
            assert(hsum(post.open@, post.lheads@, index as int, index + 1) == hlen);
            assert(hsum(post.open@, post.lheads@, 0, n) == hsum(pre.open@, pre.lheads@, 0, n) + hlen);
            // stored sizes of still-open heads
            assert forall|k: int| 0 <= k < post.open@.len() implies #[trigger] post.lheads@[post.open@[k]].size
                == hsum(post.open@, post.lheads@, 0, post.open@[k]) by {
                assert(post.open@[k] == pre.open@[k]);
                assert(pre.open@[k] < index as int);
                lemma_hsum_congruent(pre.open@, post.open@, pre.lheads@, post.lheads@, 0, pre.open@[k]);
            }
            assert(post.inv());
            // lower frames unchanged
            assert forall|k: int| 0 <= k < d - 1 implies post.frame(k) == pre.frame(k) by {
                pre.lemma_frame_bounds(k);
                assert(post.frame_head_lo(k) == pre.frame_head_lo(k));
                assert(post.frame_head_hi(k) == pre.frame_head_hi(k));
                assert(post.frame_lo(k) == pre.frame_lo(k));
                assert(post.frame_hi(k) == pre.frame_hi(k));
                assert(pre.frame_head_hi(k) <= pre.open@[d - 1]);
                assert(post.lheads@.subrange(pre.frame_head_lo(k), pre.frame_head_hi(k))
                    =~= pre.lheads@.subrange(pre.frame_head_lo(k), pre.frame_head_hi(k)));
            }
            // the new top frame
            let hs1 = pre.lheads@.subrange(pre.frame_head_lo(d - 1), index as int);
            let hs2 = pre.lheads@.subrange(index + 1, n);
            let h = Listhead { offset, size: newsize };
            assert(post.frame_head_lo(post.depth()) == pre.frame_head_lo(d - 1));
            assert(post.frame_head_hi(post.depth()) == n);
            assert(post.lheads@.subrange(pre.frame_head_lo(d - 1), n) =~= hs1 + seq![h] + hs2);
            lemma_assembled_mid(
                post.str@,
                hs1,
                h,
                hs2,
                pre.frame_lo(d - 1),
                pre.str@.len() as int,
            );
            assert(post.frame_lo(post.depth()) == pre.frame_lo(d - 1));
            assert(post.frame_hi(post.depth()) == pre.str@.len());
            assert(post.top() == assembled(post.str@, hs1 + seq![h] + hs2, pre.frame_lo(d - 1), pre.str@.len() as int));
            assert(assembled(post.str@, hs1, pre.frame_lo(d - 1), offset as int)
                == assembled(pre.str@, hs1, pre.frame_lo(d - 1), offset as int));
            assert(assembled(post.str@, hs2, offset as int, pre.str@.len() as int)
                == assembled(pre.str@, hs2, offset as int, pre.str@.len() as int));
            assert(pre.frame_hi(d - 1) == offset);
            assert(pre.frame_head_hi(d - 1) == index as int);
            assert(post.top() == pre.frame(d - 1) + list_header(pre.top().len() as nat) + pre.top());
        }
    }

    /// Streams the payload into `dst`, emitting each list header at its
    /// recorded offset, so that headers interleave with the payload.
    pub fn copy_to(&self, dst: &mut Vec<u8>)
        requires
            self.inv(),
            self.depth() == 0,
        ensures
            final(dst)@ == self.out(),
    {
        dst.clear();
        let mut strpos: usize = 0;
        let mut k: usize = 0;
        proof {
            self.lemma_frame_bounds(0);
            assert(self.lheads@.subrange(0, self.lheads@.len() as int) =~= self.lheads@);
            assert(self.lheads@.skip(0) =~= self.lheads@);
        }
        while k < self.lheads.len()
            invariant
                self.inv(),
                self.depth() == 0,
                k <= self.lheads@.len(),
                strpos <= self.str@.len(),
                k > 0 ==> strpos == self.lheads@[k - 1].offset,
                forall|i: int| k <= i < self.lheads@.len() ==> strpos <= #[trigger] self.lheads@[i].offset,
                self.out() == dst@ + assembled(
                    self.str@,
                    self.lheads@.skip(k as int),
                    strpos as int,
                    self.str@.len() as int,
                ),
            decreases self.lheads@.len() - k,
        {
            let head_offset = self.lheads[k].offset;
            let mut seg = crate::trie::encoding::suffix_range(
                self.str.as_slice(),
                strpos,
                head_offset,
            );
            dst.append(&mut seg);
            //write header
            let mut enc = self.lheads[k].encode();
            dst.append(&mut enc);
            proof {
                let hs = self.lheads@.skip(k as int);
                assert(hs[0] == self.lheads@[k as int]);
                assert(hs.skip(1) =~= self.lheads@.skip(k + 1));
            }
            strpos = head_offset;
            k = k + 1;
        }
        // copy payload data after the last list header
        let mut seg = crate::trie::encoding::suffix(self.str.as_slice(), strpos);
        dst.append(&mut seg);
        proof {
            assert(self.lheads@.skip(self.lheads@.len() as int) =~= Seq::<Listhead>::empty());
            assert(assembled(
                self.str@,
                Seq::<Listhead>::empty(),
                strpos as int,
                self.str@.len() as int,
            ) == self.str@.subrange(strpos as int, self.str@.len() as int));
            assert(self.str@.subrange(strpos as int, self.str@.len() as int) =~= self.str@.skip(
                strpos as int,
            ));
        }
    }
}

/// The closed-header sum over a range with no open heads is the plain sum.
proof fn lemma_hsum_closed_sum_free(open: Seq<int>, hs: Seq<Listhead>, lo: int, hi: int)
    requires
        0 <= lo <= hi,
        hi <= hs.len(),
        forall|j: int| lo <= j < hi ==> !open.contains(j),
    ensures
        hsum(open, hs, lo, hi) == sum_header(hs.subrange(lo, hi)),
    decreases hi - lo,
{
    if lo < hi {
        lemma_hsum_closed_sum_free(open, hs, lo + 1, hi);
        assert(hs.subrange(lo, hi)[0] == hs[lo]);
        assert(hs.subrange(lo, hi).skip(1) =~= hs.subrange(lo + 1, hi));
    }
}

/// With no open lists at all, the closed-header sum is the plain sum.
proof fn lemma_hsum_closed_sum(open: Seq<int>, hs: Seq<Listhead>, lo: int, hi: int)
    requires
        0 <= lo <= hi,
        hi <= hs.len(),
        open.len() == 0,
    ensures
        hsum(open, hs, lo, hi) == sum_header(hs.subrange(lo, hi)),
{
    lemma_hsum_closed_sum_free(open, hs, lo, hi);
}

/// The closed-header sum splits at any midpoint.
proof fn lemma_hsum_split(open: Seq<int>, hs: Seq<Listhead>, lo: int, mid: int, hi: int)
    requires
        lo <= mid <= hi,
    ensures
        hsum(open, hs, lo, hi) == hsum(open, hs, lo, mid) + hsum(open, hs, mid, hi),
    decreases mid - lo,
{
    if lo < mid {
        lemma_hsum_split(open, hs, lo + 1, mid, hi);
    }
}

/// Header sums are never negative.
proof fn lemma_hsum_nonneg(open: Seq<int>, hs: Seq<Listhead>, lo: int, hi: int)
    ensures
        hsum(open, hs, lo, hi) >= 0,
    decreases hi - lo,
{
    if lo < hi {
        lemma_hsum_nonneg(open, hs, lo + 1, hi);
        assert(header_len(hs[lo].size as nat) >= 0);
    }
}

/// Ranges that agree on openness and head values have equal sums.
proof fn lemma_hsum_congruent(
    open1: Seq<int>,
    open2: Seq<int>,
    hs1: Seq<Listhead>,
    hs2: Seq<Listhead>,
    lo: int,
    hi: int,
)
    requires
        0 <= lo,
        forall|j: int| lo <= j < hi ==> (open1.contains(j) <==> open2.contains(j)),
        forall|j: int| lo <= j < hi ==> hs1[j] == #[trigger] hs2[j],
        hi <= hs1.len(),
        hi <= hs2.len(),
    ensures
        hsum(open1, hs1, lo, hi) == hsum(open2, hs2, lo, hi),
    decreases hi - lo,
{
    if lo < hi {
        lemma_hsum_congruent(open1, open2, hs1, hs2, lo + 1, hi);
    }
}

/// The length of assembled output: the payload span plus all header bytes.
proof fn lemma_assembled_len(s: Seq<u8>, hs: Seq<Listhead>, lo: int, hi: int)
    requires
        0 <= lo,
        hi <= s.len(),
        forall|i: int| 0 <= i < hs.len() ==> lo <= #[trigger] hs[i].offset <= hi,
        forall|i: int, j: int| 0 <= i <= j < hs.len() ==> hs[i].offset <= hs[j].offset,
        lo <= hi,
    ensures
        assembled(s, hs, lo, hi).len() == hi - lo + sum_header(hs),
    decreases hs.len(),
{
    if hs.len() > 0 {
        lemma_assembled_len(s, hs.skip(1), hs[0].offset as int, hi);
    }
}

/// Assembly only reads the payload below `hi`: extending the payload beyond
/// it leaves the result unchanged.
proof fn lemma_assembled_same_str(s1: Seq<u8>, s2: Seq<u8>, hs: Seq<Listhead>, lo: int, hi: int)
    requires
        0 <= lo <= hi <= s1.len(),
        s1.len() <= s2.len(),
        forall|x: int| 0 <= x < s1.len() ==> s1[x] == #[trigger] s2[x],
        forall|i: int| 0 <= i < hs.len() ==> lo <= #[trigger] hs[i].offset <= hi,
        forall|i: int, j: int| 0 <= i <= j < hs.len() ==> hs[i].offset <= hs[j].offset,
    ensures
        assembled(s1, hs, lo, hi) == assembled(s2, hs, lo, hi),
    decreases hs.len(),
{
    if hs.len() == 0 {
        assert(s1.subrange(lo, hi) =~= s2.subrange(lo, hi));
    } else {
        assert(s1.subrange(lo, hs[0].offset as int) =~= s2.subrange(lo, hs[0].offset as int));
        lemma_assembled_same_str(s1, s2, hs.skip(1), hs[0].offset as int, hi);
    }
}

/// Appending payload bytes extends the assembled tail.
proof fn lemma_assembled_extend(s: Seq<u8>, ext: Seq<u8>, hs: Seq<Listhead>, lo: int)
    requires
        0 <= lo <= s.len(),
        forall|i: int| 0 <= i < hs.len() ==> lo <= #[trigger] hs[i].offset <= s.len(),
        forall|i: int, j: int| 0 <= i <= j < hs.len() ==> hs[i].offset <= hs[j].offset,
    ensures
        assembled(s + ext, hs, lo, s.len() + ext.len() as int) == assembled(s, hs, lo, s.len() as int) + ext,
    decreases hs.len(),
{
    let s2 = s + ext;
    if hs.len() == 0 {
        assert(s2.subrange(lo, s2.len() as int) =~= s.subrange(lo, s.len() as int) + ext);
    } else {
        assert(s2.subrange(lo, hs[0].offset as int) =~= s.subrange(lo, hs[0].offset as int));
        lemma_assembled_extend(s, ext, hs.skip(1), hs[0].offset as int);
        assert(assembled(s2, hs, lo, s2.len() as int) =~= assembled(s, hs, lo, s.len() as int) + ext);
    }
}

/// Assembling around one distinguished header splits into the part before
/// it, its header bytes, and the part after it.
proof fn lemma_assembled_mid(
    s: Seq<u8>,
    hs1: Seq<Listhead>,
    h: Listhead,
    hs2: Seq<Listhead>,
    lo: int,
    hi: int,
)
    ensures
        assembled(s, hs1 + seq![h] + hs2, lo, hi) == assembled(s, hs1, lo, h.offset as int)
            + list_header(h.size as nat) + assembled(s, hs2, h.offset as int, hi),
    decreases hs1.len(),
{
    let all = hs1 + seq![h] + hs2;
    if hs1.len() == 0 {
        assert(all[0] == h);
        assert(all.skip(1) =~= hs2);
        assert(assembled(s, hs1, lo, h.offset as int) == s.subrange(lo, h.offset as int));
    } else {
        assert(all[0] == hs1[0]);
        assert(all.skip(1) =~= hs1.skip(1) + seq![h] + hs2);
        lemma_assembled_mid(s, hs1.skip(1), h, hs2, hs1[0].offset as int, hi);
    }
}

} // verus!
