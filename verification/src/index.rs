//! The index: entries of fixed width that map the relative offset of a record
//! to the position of its frame in the store.

use crate::endian::{
    be_bytes, be_value, lemma_be_bytes_len, lemma_be_bytes_of_value, lemma_be_value_bound,
    lemma_be_value_of_bytes, lemma_radix_of_words, push_u64_be, read_u32_be, read_u64_be,
    u32_be_bytes,
};
use vstd::prelude::*;
use vstd::slice::slice_subrange;

verus! {

/// The width of an entry's relative offset, in bytes.
pub const OFFWIDTH: usize = 4;

/// The width of an entry's store position, in bytes.
pub const POSWIDTH: usize = 8;

/// The width of an entry, in bytes.
pub const ENTWIDTH: usize = OFFWIDTH + POSWIDTH;

/// The size to which the region of an open index is laid out, in bytes.
pub const MAX_INDEX_BYTES: usize = 1024;

/// An entry of the index.
#[derive(Debug, Clone, Copy, PartialEq, Eq)]
pub struct IndexRead {
    /// The offset of the record, relative to the base offset of the segment.
    pub out: u32,
    /// The position of the record's frame in the store.
    pub pos: u64,
}

impl Default for IndexRead {
    fn default() -> (e: IndexRead)
        ensures
            e.out == 0,
            e.pos == 0,
    {
        IndexRead { out: 0, pos: 0 }
    }
}

/// Why a lookup in the index found no entry.
#[derive(Debug, Clone, Copy, PartialEq, Eq)]
pub enum IndexReadErr {
    /// The index has no entry at all.
    Empty,
    /// The slot asked for lies behind the last entry.
    EOF,
}

impl IndexReadErr {
    /// The error in words.
    pub fn message(&self) -> (text: &'static str)
        ensures
            text@ == (match self {
                IndexReadErr::Empty => "empty"@,
                IndexReadErr::EOF => "end of file"@,
            }),
    {
        match self {
            IndexReadErr::Empty => "empty",
            IndexReadErr::EOF => "end of file",
        }
    }
}

/// Why the index could not be opened or written.
#[derive(Debug, Clone, Copy, PartialEq, Eq)]
pub enum IndexError {
    /// The region has no room for one more entry.
    Full,
    /// The bytes to open the index over are more than its region holds.
    TooLarge,
    /// The bytes to open the index over do not end with a whole entry.
    Misaligned,
}

/// An entry as the index holds it: the relative offset in four bytes, then
/// the position in eight, each most significant byte first.
pub open spec fn entry_bytes(e: IndexRead) -> Seq<u8> {
    be_bytes(e.out as nat, 4) + be_bytes(e.pos as nat, 8)
}

/// The entry in slot `slot` of `bytes`.
pub open spec fn entry_at(bytes: Seq<u8>, slot: int) -> IndexRead {
    IndexRead {
        out: be_value(bytes.subrange(12 * slot, 12 * slot + 4)) as u32,
        pos: be_value(bytes.subrange(12 * slot + 4, 12 * slot + 12)) as u64,
    }
}

/// The entries that `bytes` hold, slot by slot.
pub open spec fn entries_of(bytes: Seq<u8>) -> Seq<IndexRead> {
    Seq::new(bytes.len() / 12, |slot: int| entry_at(bytes, slot))
}

/// What a lookup gives among `entries`: with `idx` at `-1` the last entry, else
/// the entry in slot `idx`. Where there is no entry at all the lookup fails
/// with `Empty`, whatever `idx` is; where there are entries and none in slot
/// `idx`, which holds of every `idx` below `-1` too, with `EOF`.
pub open spec fn lookup(entries: Seq<IndexRead>, idx: i64) -> Result<IndexRead, IndexReadErr> {
    if entries.len() == 0 {
        Err(IndexReadErr::Empty)
    } else if idx == -1 {
        Ok(entries.last())
    } else if 0 <= idx < entries.len() {
        Ok(entries[idx as int])
    } else {
        Err(IndexReadErr::EOF)
    }
}

/// The bytes of one more entry behind whole entries add that entry, in the
/// next slot, and leave the entries before it as they were.
pub proof fn lemma_entries_push(bytes: Seq<u8>, e: IndexRead)
    requires
        bytes.len() % 12 == 0,
    ensures
        entries_of(bytes + entry_bytes(e)) == entries_of(bytes).push(e),
        (bytes + entry_bytes(e)).len() == bytes.len() + 12,
{
    let all = bytes + entry_bytes(e);
    let n = (bytes.len() / 12) as int;
    lemma_be_bytes_len(e.out as nat, 4);
    lemma_be_bytes_len(e.pos as nat, 8);
    lemma_radix_of_words();
    lemma_be_value_of_bytes(e.out as nat, 4);
    lemma_be_value_of_bytes(e.pos as nat, 8);
    assert(all.len() == bytes.len() + 12);
    assert forall|i: int| 0 <= i < n + 1 implies #[trigger] entries_of(all)[i] == entries_of(
        bytes,
    ).push(e)[i] by {
        if i < n {
            assert(all.subrange(12 * i, 12 * i + 4) =~= bytes.subrange(12 * i, 12 * i + 4));
            assert(all.subrange(12 * i + 4, 12 * i + 12) =~= bytes.subrange(
                12 * i + 4,
                12 * i + 12,
            ));
        } else {
            assert(all.subrange(12 * i, 12 * i + 4) =~= be_bytes(e.out as nat, 4));
            assert(all.subrange(12 * i + 4, 12 * i + 12) =~= be_bytes(e.pos as nat, 8));
        }
    }
    assert(entries_of(all) =~= entries_of(bytes).push(e));
}

/// The entries lose nothing of the bytes: the bytes of a slot are the bytes
/// of the entry read from it.
pub proof fn lemma_entry_bytes_of_entry_at(bytes: Seq<u8>, slot: int)
    requires
        0 <= slot,
        12 * slot + 12 <= bytes.len(),
    ensures
        entry_bytes(entry_at(bytes, slot)) == bytes.subrange(12 * slot, 12 * slot + 12),
{
    let out = bytes.subrange(12 * slot, 12 * slot + 4);
    let pos = bytes.subrange(12 * slot + 4, 12 * slot + 12);
    lemma_radix_of_words();
    lemma_be_value_bound(out);
    lemma_be_value_bound(pos);
    lemma_be_bytes_of_value(out);
    lemma_be_bytes_of_value(pos);
    assert(out + pos =~= bytes.subrange(12 * slot, 12 * slot + 12));
}

/// Writes `src` over the bytes of `dst` that start at `at`.
fn overwrite(dst: &mut Vec<u8>, at: usize, src: &[u8])
    requires
        at + src@.len() <= old(dst)@.len(),
    ensures
        final(dst)@ == old(dst)@.subrange(0, at as int) + src@ + old(dst)@.skip(at + src@.len()),
{
    let n: usize = src.len();
    let total: usize = dst.len();
    let mut i: usize = 0;
    while i < n
        invariant
            i <= n,
            n == src@.len(),
            at + n <= total,
            total == dst@.len(),
            dst@.len() == old(dst)@.len(),
            dst@ == old(dst)@.subrange(0, at as int) + src@.subrange(0, i as int) + old(dst)@.skip(
                at + i,
            ),
        decreases n - i,
    {
        dst[at + i] = src[i];
        assert(dst@ =~= old(dst)@.subrange(0, at as int) + src@.subrange(0, i + 1) + old(
            dst,
        )@.skip(at + i + 1));
        i += 1;
    }
    assert(src@.subrange(0, n as int) =~= src@);
}

/// A region of bytes laid out to a fixed size, of which a prefix holds the
/// entries written so far.
#[derive(Debug)]
pub struct Index {
    region: Vec<u8>,
    size: usize,
}

impl View for Index {
    type V = Seq<u8>;

    /// The bytes written: those of the entries, without the room behind them.
    closed spec fn view(&self) -> Seq<u8> {
        self.region@.subrange(0, self.size as int)
    }
}

impl Index {
    /// The bytes written are whole entries and lie within the region, which
    /// is no larger than an index is laid out to.
    pub closed spec fn wf(&self) -> bool {
        &&& self.size <= self.region@.len()
        &&& self.region@.len() <= MAX_INDEX_BYTES
        &&& self.size % ENTWIDTH == 0
    }

    /// The size of the region: how many bytes the index can hold.
    pub closed spec fn capacity(&self) -> nat {
        self.region@.len()
    }

    /// The entries written so far.
    pub open spec fn entries(&self) -> Seq<IndexRead> {
        entries_of(self@)
    }

    /// What the invariant says of the bytes written and of the capacity.
    pub proof fn lemma_wf(&self)
        requires
            self.wf(),
        ensures
            self@.len() % 12 == 0,
            self@.len() <= self.capacity(),
            self.capacity() <= MAX_INDEX_BYTES,
    {
    }

    /// An index over the bytes that it held when it was last closed, laid out
    /// to `MAX_INDEX_BYTES`.
    pub fn new(bytes: Vec<u8>) -> (r: Result<Index, IndexError>)
        ensures
            match r {
                Ok(index) => {
                    &&& index.wf()
                    &&& index@ == bytes@
                    &&& index.capacity() == MAX_INDEX_BYTES
                    &&& bytes@.len() <= MAX_INDEX_BYTES
                    &&& bytes@.len() % 12 == 0
                },
                Err(e) => if bytes@.len() > MAX_INDEX_BYTES {
                    e == IndexError::TooLarge
                } else {
                    e == IndexError::Misaligned && bytes@.len() % 12 != 0
                },
            },
    {
        let size: usize = bytes.len();
        if size > MAX_INDEX_BYTES {
            return Err(IndexError::TooLarge);
        }
        if size % ENTWIDTH != 0 {
            return Err(IndexError::Misaligned);
        }
        let mut region = bytes;
        region.resize(MAX_INDEX_BYTES, 0u8);
        Ok(Index { region, size })
    }

    /// Looks an entry up: with `idx` at `-1` the last one written, else the one
    /// in slot `idx`.
    pub fn read(&self, idx: i64) -> (r: Result<IndexRead, IndexReadErr>)
        requires
            self.wf(),
        ensures
            r == lookup(self.entries(), idx),
    {
        if self.size == 0 {
            return Err(IndexReadErr::Empty);
        }
        let count: usize = self.size / ENTWIDTH;
        if idx < -1 {
            return Err(IndexReadErr::EOF);
        }
        let slot: usize = if idx == -1 {
            count - 1
        } else if idx as u64 >= count as u64 {
            return Err(IndexReadErr::EOF);
        } else {
            idx as usize
        };
        let at: usize = slot * ENTWIDTH;
        let out_bytes = slice_subrange(self.region.as_slice(), at, at + OFFWIDTH);
        let pos_bytes = slice_subrange(self.region.as_slice(), at + OFFWIDTH, at + ENTWIDTH);
        assert(out_bytes@.subrange(0, 4) =~= self@.subrange(12 * slot, 12 * slot + 4));
        assert(pos_bytes@.subrange(0, 8) =~= self@.subrange(12 * slot + 4, 12 * slot + 12));
        match (read_u32_be(out_bytes), read_u64_be(pos_bytes)) {
            (Some(out), Some(pos)) => Ok(IndexRead { out, pos }),
            _ => Err(IndexReadErr::EOF),
        }
    }

    /// Writes one entry into the next free slot.
    pub fn write(&mut self, off: u32, pos: u64) -> (r: Result<(), IndexError>)
        requires
            old(self).wf(),
        ensures
            final(self).wf(),
            final(self).capacity() == old(self).capacity(),
            match r {
                Ok(_) => {
                    &&& old(self)@.len() + 12 <= old(self).capacity()
                    &&& final(self)@ == old(self)@ + entry_bytes(IndexRead { out: off, pos })
                    &&& final(self).entries() == old(self).entries().push(
                        IndexRead { out: off, pos },
                    )
                },
                Err(e) => {
                    &&& e == IndexError::Full
                    &&& old(self)@.len() + 12 > old(self).capacity()
                    &&& final(self)@ == old(self)@
                },
            },
    {
        if self.region.len() - self.size < ENTWIDTH {
            return Err(IndexError::Full);
        }
        let off_bytes = u32_be_bytes(off);
        let mut pos_bytes: Vec<u8> = Vec::new();
        push_u64_be(&mut pos_bytes, pos);
        proof {
            lemma_be_bytes_len(off as nat, 4);
            lemma_be_bytes_len(pos as nat, 8);
            lemma_entries_push(old(self)@, IndexRead { out: off, pos });
        }
        assert(pos_bytes@ =~= be_bytes(pos as nat, 8));
        overwrite(&mut self.region, self.size, off_bytes.as_slice());
        overwrite(&mut self.region, self.size + OFFWIDTH, pos_bytes.as_slice());
        self.size = self.size + ENTWIDTH;
        assert(self@ =~= old(self)@ + entry_bytes(IndexRead { out: off, pos }));
        Ok(())
    }

    /// The number of bytes written.
    pub fn size(&self) -> (r: u64)
        requires
            self.wf(),
        ensures
            r == self@.len(),
    {
        self.size as u64
    }

    /// Closes the index: gives up the room behind the entries, so that the
    /// region is the bytes written and nothing more.
    pub fn close(&mut self)
        requires
            old(self).wf(),
        ensures
            final(self).wf(),
            final(self)@ == old(self)@,
            final(self).capacity() == old(self)@.len(),
    {
        self.region.truncate(self.size);
        assert(self@ =~= old(self)@);
    }

    /// The bytes written, for whoever keeps them on disk.
    pub fn as_bytes(&self) -> (r: &[u8])
        requires
            self.wf(),
        ensures
            r@ == self@,
    {
        slice_subrange(self.region.as_slice(), 0, self.size)
    }
}

} // verus!
