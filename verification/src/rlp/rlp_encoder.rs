//! A thin handle over the encoder buffer, holding the state of one
//! serialization and handing the result out as a byte vector.

use vstd::prelude::*;

use crate::rlp::encoder_buffer::RlpBuffer;
use crate::rlp::model::string_enc;

verus! {

/// An RLP encoder: wraps the streaming buffer.
pub struct RlpEncoder {
    /// The underlying two-structure buffer.
    pub buffer: RlpBuffer,
}

impl RlpEncoder {
    /// A fresh encoder with an empty buffer.
    pub fn new() -> (r: RlpEncoder)
        ensures
            r.buffer.inv(),
            r.buffer.depth() == 0,
            r.buffer.top() == Seq::<u8>::empty(),
            r.buffer.used() == 0,
    {
        RlpEncoder { buffer: RlpBuffer::new() }
    }

    /// Appends raw, already-encoded bytes.
    pub fn write(&mut self, bytes: Vec<u8>) -> (len: usize)
        requires
            old(self).buffer.inv(),
            old(self).buffer.used() + bytes@.len() <= usize::MAX,
        ensures
            final(self).buffer.inv(),
            final(self).buffer.open_lists() == old(self).buffer.open_lists(),
            final(self).buffer.used() == old(self).buffer.used() + bytes@.len(),
            forall|k: int| 0 <= k < old(self).buffer.depth() ==> final(self).buffer.frame(k)
                == old(self).buffer.frame(k),
            final(self).buffer.top() == old(self).buffer.top() + bytes@,
            len == bytes@.len(),
    {
        self.buffer.write(bytes)
    }

    /// Opens a list; the returned index is passed to `list_end`.
    pub fn list(&mut self) -> (index: usize)
        requires
            old(self).buffer.inv(),
            old(self).buffer.used() + 9 <= usize::MAX,
        ensures
            final(self).buffer.inv(),
            final(self).buffer.open_lists() == old(self).buffer.open_lists().push(index as int),
            final(self).buffer.used() == old(self).buffer.used() + 9,
            forall|k: int| 0 <= k <= old(self).buffer.depth() ==> final(self).buffer.frame(k)
                == old(self).buffer.frame(k),
            final(self).buffer.top() == Seq::<u8>::empty(),
    {
        self.buffer.list()
    }

    /// Closes the list opened at `index`.
    pub fn list_end(&mut self, index: usize)
        requires
            old(self).buffer.inv(),
            old(self).buffer.depth() > 0,
            old(self).buffer.open_lists().last() == index as int,
        ensures
            final(self).buffer.inv(),
            final(self).buffer.open_lists() == old(self).buffer.open_lists().drop_last(),
            final(self).buffer.used() <= old(self).buffer.used(),
            final(self).buffer.used() == old(self).buffer.used() - 9
                + crate::rlp::model::list_header(old(self).buffer.top().len() as nat).len(),
            forall|k: int| 0 <= k < old(self).buffer.depth() - 1 ==> final(self).buffer.frame(k)
                == old(self).buffer.frame(k),
            final(self).buffer.top() == old(self).buffer.frame(old(self).buffer.depth() - 1)
                + crate::rlp::model::list_header(old(self).buffer.top().len() as nat)
                + old(self).buffer.top(),
    {
        self.buffer.list_end(index);
    }

    /// Appends a byte string in its canonical RLP encoding.
    pub fn write_bytes(&mut self, bytes: Vec<u8>)
        requires
            old(self).buffer.inv(),
            old(self).buffer.used() + bytes@.len() + 9 <= usize::MAX,
        ensures
            final(self).buffer.inv(),
            final(self).buffer.open_lists() == old(self).buffer.open_lists(),
            final(self).buffer.used() == old(self).buffer.used() + string_enc(bytes@).len(),
            forall|k: int| 0 <= k < old(self).buffer.depth() ==> final(self).buffer.frame(k)
                == old(self).buffer.frame(k),
            final(self).buffer.top() == old(self).buffer.top() + string_enc(bytes@),
    {
        self.buffer.write_bytes(bytes);
    }

    /// Appends the encoded bytes to `dest`, replacing its contents.
    pub fn append_to_bytes(&self, dest: &mut Vec<u8>)
        requires
            self.buffer.inv(),
            self.buffer.depth() == 0,
        ensures
            final(dest)@ == self.buffer.out(),
    {
        let size = self.buffer.size();  // the output's size, headers included
        dest.reserve(size);
        self.buffer.copy_to(dest);
    }

    /// Clears the encoder for reuse.
    pub fn reset(&mut self)
        ensures
            final(self).buffer.inv(),
            final(self).buffer.depth() == 0,
            final(self).buffer.top() == Seq::<u8>::empty(),
            final(self).buffer.used() == 0,
    {
        self.buffer.reset();
    }
}

} // verus!
