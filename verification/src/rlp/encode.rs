//! List headers for the streaming encoder: a recorded header is turned into
//! its canonical bytes when the payload is copied out.

use vstd::prelude::*;

use crate::rlp::model::{be_bytes, header_bytes, list_header};

verus! {

/// A list header recorded while encoding: where in the payload buffer the
/// list starts, and (once closed) the size of its encoded content.
#[derive(Clone, Copy, PartialEq, Eq, Structural, Debug)]
pub struct Listhead {
    /// Index of this header in the payload data.
    pub offset: usize,
    /// Total size of the encoded content covered by this header.
    pub size: usize,
}

impl Listhead {
    /// The canonical header bytes for this list.
    pub fn encode(&self) -> (r: Vec<u8>)
        ensures
            r@ == list_header(self.size as nat),
    {
        let mut buff: Vec<u8> = Vec::new();
        Listhead::put_head(&mut buff, 0xC0, 0xF7, self.size as u64);
        proof {
            assert(header_bytes(0xC0, 0xF7, self.size as nat) =~= list_header(self.size as nat));
        }
        buff
    }

    /// Appends a header with the given tag bases: the short form packs the
    /// size into the tag, the long form appends the minimal big-endian size.
    pub fn put_head(buff: &mut Vec<u8>, smalltag: u8, largetag: u8, size: u64) -> (n: usize)
        requires
            smalltag <= 0xC0,
            largetag <= 0xF7,
        ensures
            final(buff)@ == old(buff)@ + header_bytes(smalltag, largetag, size as nat),
            n == header_bytes(smalltag, largetag, size as nat).len(),
    {
        if size < 56 {
            buff.push(smalltag + size as u8);
            return 1;
        }
        let mut sizebytes = putint(size);
        let sizesize = sizebytes.len();
        proof {
            crate::rlp::model::lemma_be_bytes_len(size as nat);
        }
        buff.push(largetag + sizesize as u8);
        buff.append(&mut sizebytes);
        sizesize + 1
    }
}

/// The minimal big-endian bytes of `i`: no leading zeros, empty for zero.
pub(crate) fn putint(i: u64) -> (r: Vec<u8>)
    ensures
        r@ == be_bytes(i as nat),
    decreases i,
{
    if i == 0 {
        Vec::new()
    } else {
        proof {
            assert((i >> 8) == i / 256 && (i & 0xFF) == i % 256 && (i >> 8) < i) by (bit_vector)
                requires
                    i != 0,
            ;
        }
        let mut r = putint(i >> 8);
        r.push((i & 0xFF) as u8);
        r
    }
}

} // verus!
