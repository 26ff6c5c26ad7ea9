//! The store: the bytes of the records, each behind a prefix that gives its length.

use crate::endian::{
    be_bytes, be_value, lemma_be_bytes_len, lemma_be_value_of_bytes, lemma_radix_of_words,
    push_u64_be, read_u64_be,
};
use vstd::prelude::*;
use vstd::slice::{slice_subrange, slice_to_vec};

verus! {

/// The width of the length prefix, in bytes.
pub const LENWIDTH: u64 = 8;

/// A payload as the store holds it: its length in eight bytes, most
/// significant first, and then the payload.
pub open spec fn frame(payload: Seq<u8>) -> Seq<u8> {
    be_bytes(payload.len(), 8) + payload
}

/// The payload of the frame that starts at `pos` in `bytes`. There is none
/// where the prefix or the payload that it announces would reach past the end.
pub open spec fn frame_at(bytes: Seq<u8>, pos: u64) -> Option<Seq<u8>> {
    if pos + 8 > bytes.len() {
        None
    } else {
        let len = be_value(bytes.subrange(pos as int, pos + 8));
        if pos + 8 + len > bytes.len() {
            None
        } else {
            Some(bytes.subrange(pos + 8, pos + 8 + len))
        }
    }
}

/// What a buffer that held `buf` holds after a positional read at `offset`
/// from a store of `bytes`: the bytes from `offset` on, as many as there are
/// and the buffer can take, and behind them what the buffer held there before.
pub open spec fn read_at_result(bytes: Seq<u8>, buf: Seq<u8>, offset: u64) -> Seq<u8> {
    if offset >= bytes.len() {
        buf
    } else if buf.len() <= bytes.len() - offset {
        bytes.subrange(offset as int, offset + buf.len())
    } else {
        bytes.skip(offset as int) + buf.skip(bytes.len() - offset)
    }
}

/// A frame appended to some bytes is found again at the position where those
/// bytes ended.
pub proof fn lemma_frame_at_end(bytes: Seq<u8>, payload: Seq<u8>)
    requires
        bytes.len() + 8 + payload.len() <= u64::MAX,
    ensures
        frame_at(bytes + frame(payload), bytes.len() as u64) == Some(payload),
{
    let all = bytes + frame(payload);
    let pos = bytes.len() as int;
    lemma_be_bytes_len(payload.len(), 8);
    lemma_radix_of_words();
    lemma_be_value_of_bytes(payload.len(), 8);
    assert(all.subrange(pos, pos + 8) =~= be_bytes(payload.len(), 8));
    assert(all.subrange(pos + 8, pos + 8 + payload.len()) =~= payload);
}

/// A frame that some bytes hold stays where it is, unchanged, when more bytes
/// follow.
pub proof fn lemma_frame_at_prefix(bytes: Seq<u8>, more: Seq<u8>, pos: u64)
    requires
        frame_at(bytes, pos) is Some,
    ensures
        frame_at(bytes + more, pos) == frame_at(bytes, pos),
{
    let all = bytes + more;
    assert(all.subrange(pos as int, pos + 8) =~= bytes.subrange(pos as int, pos + 8));
    let len = be_value(bytes.subrange(pos as int, pos + 8));
    assert(all.subrange(pos + 8, pos + 8 + len) =~= bytes.subrange(pos + 8, pos + 8 + len));
}

/// An append-only sequence of frames.
#[derive(Debug)]
pub struct Store {
    data: Vec<u8>,
    size: u64,
}

/// What an append has written.
#[derive(Debug)]
pub struct StoreWriteStatus {
    /// The number of bytes written, the length prefix included.
    pub bytes_read: u64,
    /// The position of the frame: where its length prefix starts.
    pub position: u64,
}

/// Why an operation on the store failed.
#[derive(Debug, Clone, Copy, PartialEq, Eq)]
pub enum StoreError {
    /// The frame asked for does not lie within the store.
    OutOfBounds,
    /// The store would grow past what a 64-bit size can count.
    TooLarge,
}

impl View for Store {
    type V = Seq<u8>;

    /// The bytes of the store.
    closed spec fn view(&self) -> Seq<u8> {
        self.data@
    }
}

impl Store {
    /// The tracked size is the length of the bytes held.
    pub closed spec fn wf(&self) -> bool {
        self.size == self.data@.len()
    }

    /// A store over the bytes that it held when it was last open.
    pub fn new(data: Vec<u8>) -> (s: Store)
        ensures
            s.wf(),
            s@ == data@,
    {
        let size: u64 = data.len() as u64;
        Store { data, size }
    }

    /// Appends `b` as one frame. Returns where the frame starts and how many
    /// bytes it takes.
    pub fn append(&mut self, b: &[u8]) -> (r: Result<StoreWriteStatus, StoreError>)
        requires
            old(self).wf(),
        ensures
            final(self).wf(),
            match r {
                Ok(status) => {
                    &&& old(self)@.len() + 8 + b@.len() <= u64::MAX
                    &&& final(self)@ == old(self)@ + frame(b@)
                    &&& status.position == old(self)@.len()
                    &&& status.bytes_read == 8 + b@.len()
                },
                Err(e) => {
                    &&& e == StoreError::TooLarge
                    &&& old(self)@.len() + 8 + b@.len() > u64::MAX
                    &&& final(self)@ == old(self)@
                },
            },
    {
        let position: u64 = self.size;
        let len: u64 = b.len() as u64;
        if len > u64::MAX - LENWIDTH || position > u64::MAX - LENWIDTH - len {
            return Err(StoreError::TooLarge);
        }
        push_u64_be(&mut self.data, len);
        let ghost head = self.data@;
        self.data.extend_from_slice(b);
        assert(self.data@ =~= head + b@);
        assert(self.data@ =~= old(self).data@ + frame(b@));
        proof {
            lemma_be_bytes_len(len as nat, 8);
        }
        self.size = position + LENWIDTH + len;
        Ok(StoreWriteStatus { bytes_read: len + LENWIDTH, position })
    }

    /// Copies into `buf` the bytes that start at `offset`, as many as the
    /// store has from there and `buf` can take, without regard to frames. What
    /// is left of `buf` keeps its content.
    pub fn read_at(&self, buf: &mut [u8], offset: u64) -> (r: Result<(), StoreError>)
        requires
            self.wf(),
        ensures
            r is Ok,
            final(buf)@ == read_at_result(self@, old(buf)@, offset),
    {
        let total: usize = self.data.len();
        if offset >= self.size {
            return Ok(());
        }
        let start: usize = offset as usize;
        let available: usize = total - start;
        let n: usize = if buf.len() <= available {
            buf.len()
        } else {
            available
        };
        let mut i: usize = 0;
        while i < n
            invariant
                i <= n,
                start + n <= total,
                total == self.data@.len(),
                n <= buf@.len(),
                buf@.len() == old(buf)@.len(),
                buf@ == self.data@.subrange(start as int, start + i) + old(buf)@.skip(i as int),
            decreases n - i,
        {
            buf[i] = self.data[start + i];
            assert(buf@ =~= self.data@.subrange(start as int, start + i + 1) + old(buf)@.skip(
                i + 1,
            ));
            i += 1;
        }
        assert(buf@ =~= read_at_result(self@, old(buf)@, offset));
        Ok(())
    }

    /// Reads the payload of the frame that starts at `pos`.
    pub fn read(&self, pos: u64) -> (r: Result<Vec<u8>, StoreError>)
        requires
            self.wf(),
        ensures
            match r {
                Ok(payload) => frame_at(self@, pos) == Some(payload@),
                Err(e) => e == StoreError::OutOfBounds && frame_at(self@, pos) is None,
            },
    {
        let total: usize = self.data.len();
        if pos > self.size || self.size - pos < LENWIDTH {
            return Err(StoreError::OutOfBounds);
        }
        let start: usize = pos as usize;
        let prefix = slice_subrange(self.data.as_slice(), start, start + 8);
        assert(prefix@.subrange(0, 8) =~= prefix@);
        match read_u64_be(prefix) {
            None => Err(StoreError::OutOfBounds),
            Some(len) => {
                if len > self.size - pos - LENWIDTH {
                    return Err(StoreError::OutOfBounds);
                }
                let from: usize = start + 8;
                let to: usize = from + len as usize;
                Ok(slice_to_vec(slice_subrange(self.data.as_slice(), from, to)))
            },
        }
    }

    /// The number of bytes in the store.
    pub fn size(&self) -> (r: u64)
        requires
            self.wf(),
        ensures
            r == self@.len(),
    {
        self.size
    }

    /// The bytes of the store, for whoever keeps them on disk.
    pub fn as_bytes(&self) -> (r: &[u8])
        ensures
            r@ == self@,
    {
        self.data.as_slice()
    }
}

} // verus!
