//! The segment: one store and one index, and the offsets that tie a record in
//! the one to its entry in the other.

use crate::config::Config;
use crate::endian::lemma_be_bytes_len;
use crate::index::{
    entries_of, entry_bytes, lemma_entries_push, Index, IndexError, IndexRead,
    MAX_INDEX_BYTES,
};
use crate::record::{
    lemma_decoding_of_encoding, record_decoding, record_encoding, DecodeError, Record,
    RecordView,
};
use crate::store::{frame, frame_at, lemma_frame_at_end, lemma_frame_at_prefix, Store, StoreError};
use vstd::prelude::*;

verus! {

/// Why an operation on a segment failed.
#[derive(Debug, Clone, Copy, PartialEq, Eq)]
pub enum SegmentError {
    /// The segment has been closed.
    Closed,
    /// No record has the offset asked for.
    NotFound,
    /// The store refused: an entry points outside it, or it would grow too large.
    Store(StoreError),
    /// The index refused: it is full, or the bytes to open it over are not an index.
    Index(IndexError),
    /// The bytes that the store holds for the record do not decode.
    Decode(DecodeError),
    /// No offset is left to give out.
    OffsetsExhausted,
    /// The last entry of the index is not numbered as the count of entries asks.
    Corrupt,
}

/// What a segment is: the bytes of its store and of its index, the room of
/// the index, its range of offsets, its limits, and whether it is closed.
pub struct SegmentView {
    pub store: Seq<u8>,
    pub index: Seq<u8>,
    pub index_capacity: nat,
    pub base_offset: u64,
    pub next_offset: u64,
    pub config: Config,
    pub closed: bool,
}

/// The offset that a segment over the index bytes `index`, with base offset
/// `base_offset`, gives out next: the base offset where the index is empty,
/// else one past the offset that the last entry stands for.
pub open spec fn recovered_next_offset(index: Seq<u8>, base_offset: u64) -> Result<
    u64,
    SegmentError,
> {
    let entries = entries_of(index);
    if index.len() > MAX_INDEX_BYTES {
        Err(SegmentError::Index(IndexError::TooLarge))
    } else if index.len() % 12 != 0 {
        Err(SegmentError::Index(IndexError::Misaligned))
    } else if entries.len() == 0 {
        Ok(base_offset)
    } else if entries.last().out + 1 != entries.len() {
        Err(SegmentError::Corrupt)
    } else if base_offset + entries.last().out + 1 > u64::MAX {
        Err(SegmentError::OffsetsExhausted)
    } else {
        Ok((base_offset + entries.last().out + 1) as u64)
    }
}

impl SegmentView {
    /// The entries of the index.
    pub open spec fn entries(self) -> Seq<IndexRead> {
        entries_of(self.index)
    }

    /// The index holds whole entries within its room, one for each offset
    /// given out, and the last entry is numbered accordingly.
    pub open spec fn wf(self) -> bool {
        &&& self.index.len() % 12 == 0
        &&& self.index.len() <= self.index_capacity <= MAX_INDEX_BYTES
        &&& self.base_offset + self.entries().len() == self.next_offset
        &&& self.entries().len() > 0 ==> self.entries().last().out + 1 == self.entries().len()
    }

    /// The record that an append of `value` stores: `value` under the next offset.
    pub open spec fn next_record(self, value: Seq<u8>) -> RecordView {
        RecordView { value, offset: self.next_offset }
    }

    /// The entry that an append writes: the next relative offset, and the
    /// position at which the store ends before the append.
    pub open spec fn next_entry(self) -> IndexRead {
        IndexRead {
            out: (self.next_offset - self.base_offset) as u32,
            pos: self.store.len() as u64,
        }
    }

    /// Why an append of `value` fails, if it does.
    pub open spec fn append_error(self, value: Seq<u8>) -> Option<SegmentError> {
        if self.closed {
            Some(SegmentError::Closed)
        } else if self.next_offset == u64::MAX {
            Some(SegmentError::OffsetsExhausted)
        } else if self.store.len() + 8 + record_encoding(self.next_record(value)).len()
            > u64::MAX {
            Some(SegmentError::Store(StoreError::TooLarge))
        } else if self.index.len() + 12 > self.index_capacity {
            Some(SegmentError::Index(IndexError::Full))
        } else {
            None
        }
    }

    /// The segment after the store has taken the frame of `value` and the
    /// index has not: what an append leaves where the index is full.
    pub open spec fn with_frame(self, value: Seq<u8>) -> SegmentView {
        SegmentView { store: self.store + frame(record_encoding(self.next_record(value))), ..self }
    }

    /// The segment after an append of `value` that succeeds.
    pub open spec fn after_append(self, value: Seq<u8>) -> SegmentView {
        SegmentView {
            store: self.store + frame(record_encoding(self.next_record(value))),
            index: self.index + entry_bytes(self.next_entry()),
            next_offset: (self.next_offset + 1) as u64,
            ..self
        }
    }

    /// What a read at `offset` gives.
    pub open spec fn read_result(self, offset: u64) -> Result<RecordView, SegmentError> {
        if self.closed {
            Err(SegmentError::Closed)
        } else if offset < self.base_offset || offset - self.base_offset >= self.entries().len() {
            Err(SegmentError::NotFound)
        } else {
            match frame_at(self.store, self.entries()[offset - self.base_offset].pos) {
                None => Err(SegmentError::Store(StoreError::OutOfBounds)),
                Some(payload) => match record_decoding(payload) {
                    None => Err(SegmentError::Decode(DecodeError::Malformed)),
                    Some(r) => Ok(r),
                },
            }
        }
    }

    /// Whether the store or the index has reached its configured limit.
    pub open spec fn is_maxed(self) -> bool {
        self.store.len() >= self.config.segment.max_store_bytes || self.index.len()
            >= self.config.segment.max_index_bytes
    }

    /// The segment after one append for each of `values`, in order.
    pub open spec fn after_appends(self, values: Seq<Seq<u8>>) -> SegmentView
        decreases values.len(),
    {
        if values.len() == 0 {
            self
        } else {
            self.after_appends(values.drop_last()).after_append(values.last())
        }
    }

    /// Whether one append for each of `values`, in order, succeeds every time.
    pub open spec fn appends_succeed(self, values: Seq<Seq<u8>>) -> bool
        decreases values.len(),
    {
        values.len() == 0 || (self.appends_succeed(values.drop_last()) && self.after_appends(
            values.drop_last(),
        ).append_error(values.last()) is None)
    }
}

/// The bytes that the store takes for `values`, appended in order from offset
/// `first` on: for each the eight bytes of the length prefix and the encoding
/// of its record.
pub open spec fn frames_len(first: u64, values: Seq<Seq<u8>>) -> nat
    decreases values.len(),
{
    if values.len() == 0 {
        0
    } else {
        frames_len(first, values.drop_last()) + 8 + record_encoding(
            RecordView { value: values.last(), offset: (first + values.len() - 1) as u64 },
        ).len()
    }
}

/// An append keeps the segment well formed, and a read at the offset that it
/// returned gives back the value appended, under that offset.
pub proof fn lemma_read_after_append(s: SegmentView, value: Seq<u8>)
    requires
        s.wf(),
        s.append_error(value) is None,
    ensures
        s.after_append(value).wf(),
        s.after_append(value).read_result(s.next_offset) == Ok::<RecordView, SegmentError>(
            RecordView { value, offset: s.next_offset },
        ),
{
    let t = s.after_append(value);
    let encoded = record_encoding(s.next_record(value));
    lemma_entries_push(s.index, s.next_entry());
    lemma_frame_at_end(s.store, encoded);
    lemma_decoding_of_encoding(s.next_record(value));
    assert(t.entries()[s.next_offset - s.base_offset] == s.next_entry());
}

/// An append leaves every record that could be read before as it was.
pub proof fn lemma_append_keeps_records(s: SegmentView, value: Seq<u8>, offset: u64)
    requires
        s.wf(),
        s.append_error(value) is None,
        s.read_result(offset) is Ok,
    ensures
        s.after_append(value).read_result(offset) == s.read_result(offset),
{
    let t = s.after_append(value);
    let slot = offset - s.base_offset;
    lemma_entries_push(s.index, s.next_entry());
    assert(t.entries()[slot] == s.entries()[slot]);
    lemma_frame_at_prefix(
        s.store,
        frame(record_encoding(s.next_record(value))),
        s.entries()[slot].pos,
    );
}

/// An append that the index refuses, after the store has taken the frame,
/// leaves every record that could be read before as it was, too.
pub proof fn lemma_with_frame_keeps_records(s: SegmentView, value: Seq<u8>, offset: u64)
    requires
        s.wf(),
        s.read_result(offset) is Ok,
    ensures
        s.with_frame(value).wf(),
        s.with_frame(value).read_result(offset) == s.read_result(offset),
{
    lemma_frame_at_prefix(
        s.store,
        frame(record_encoding(s.next_record(value))),
        s.entries()[offset - s.base_offset].pos,
    );
}

/// A read at an offset that no append has returned finds no record.
pub proof fn lemma_read_outside(s: SegmentView, offset: u64)
    requires
        s.wf(),
        !s.closed,
        offset < s.base_offset || offset >= s.next_offset,
    ensures
        s.read_result(offset) == Err::<RecordView, SegmentError>(SegmentError::NotFound),
{
}

/// Appends that all succeed give out consecutive offsets, add one entry each
/// to the index, and add to the store the frames of the records, no more.
pub proof fn lemma_after_appends(s: SegmentView, values: Seq<Seq<u8>>)
    requires
        s.wf(),
        s.appends_succeed(values),
    ensures
        s.after_appends(values).wf(),
        s.after_appends(values).base_offset == s.base_offset,
        s.after_appends(values).next_offset == s.next_offset + values.len(),
        s.after_appends(values).index.len() == s.index.len() + 12 * values.len(),
        s.after_appends(values).store.len() == s.store.len() + frames_len(s.next_offset, values),
    decreases values.len(),
{
    if values.len() > 0 {
        let before = s.after_appends(values.drop_last());
        lemma_after_appends(s, values.drop_last());
        lemma_read_after_append(before, values.last());
        lemma_entries_push(before.index, before.next_entry());
        lemma_be_bytes_len(record_encoding(before.next_record(values.last())).len(), 8);
    }
}

/// Where appends for all of some values succeed, so do the appends for the
/// first `n` of them.
pub proof fn lemma_appends_succeed_prefix(s: SegmentView, values: Seq<Seq<u8>>, n: int)
    requires
        s.appends_succeed(values),
        0 <= n <= values.len(),
    ensures
        s.appends_succeed(values.take(n)),
    decreases values.len(),
{
    if n < values.len() {
        lemma_appends_succeed_prefix(s, values.drop_last(), n);
        assert(values.drop_last().take(n) =~= values.take(n));
    } else {
        assert(values.take(n) =~= values);
    }
}

/// Of appends that all succeed, the one for `values[i]` returns the offset
/// `i` past the first offset given out: the offsets come in order, with no
/// gap and none given twice.
pub proof fn lemma_offsets_in_order(s: SegmentView, values: Seq<Seq<u8>>, i: int)
    requires
        s.wf(),
        s.appends_succeed(values),
        0 <= i < values.len(),
    ensures
        s.after_appends(values.take(i)).append_error(values[i]) is None,
        s.after_appends(values.take(i)).next_offset == s.next_offset + i,
        s.after_appends(values.take(i + 1)) == s.after_appends(values.take(i)).after_append(
            values[i],
        ),
{
    lemma_appends_succeed_prefix(s, values, i);
    lemma_appends_succeed_prefix(s, values, i + 1);
    lemma_after_appends(s, values.take(i));
    assert(values.take(i + 1).drop_last() =~= values.take(i));
    assert(values.take(i + 1).last() == values[i]);
}

/// After appends that all succeed, a read at the offset that the append for
/// `values[i]` returned gives back `values[i]`, under that offset.
pub proof fn lemma_read_after_appends(s: SegmentView, values: Seq<Seq<u8>>, i: int)
    requires
        s.wf(),
        s.appends_succeed(values),
        0 <= i < values.len(),
    ensures
        s.after_appends(values).read_result((s.next_offset + i) as u64) == Ok::<
            RecordView,
            SegmentError,
        >(RecordView { value: values[i], offset: (s.next_offset + i) as u64 }),
    decreases values.len(),
{
    let before = s.after_appends(values.drop_last());
    lemma_after_appends(s, values.drop_last());
    if i == values.len() - 1 {
        lemma_read_after_append(before, values.last());
    } else {
        lemma_read_after_appends(s, values.drop_last(), i);
        lemma_append_keeps_records(before, values.last(), (s.next_offset + i) as u64);
    }
}

/// A segment opened over the index bytes of a well-formed segment, with the
/// same base offset, gives out next the offset that the other would have.
pub proof fn lemma_reopen_continues(s: SegmentView)
    requires
        s.wf(),
    ensures
        recovered_next_offset(s.index, s.base_offset) == Ok::<u64, SegmentError>(s.next_offset),
{
}

/// One store and one index, with the range of offsets that they hold.
#[derive(Debug)]
pub struct Segment {
    store: Store,
    index: Index,
    base_offset: u64,
    next_offset: u64,
    config: Config,
    closed: bool,
}

impl View for Segment {
    type V = SegmentView;

    closed spec fn view(&self) -> SegmentView {
        SegmentView {
            store: self.store@,
            index: self.index@,
            index_capacity: self.index.capacity(),
            base_offset: self.base_offset,
            next_offset: self.next_offset,
            config: self.config,
            closed: self.closed,
        }
    }
}

impl Segment {
    /// The store and the index are well formed, and so is the segment that
    /// they make up.
    pub closed spec fn wf(&self) -> bool {
        &&& self.store.wf()
        &&& self.index.wf()
        &&& self@.wf()
    }

    /// A well-formed segment has a well-formed view.
    pub proof fn lemma_wf(&self)
        requires
            self.wf(),
        ensures
            self@.wf(),
    {
    }

    /// Opens a segment over the bytes that its store and its index held when
    /// they were last closed. The next offset is recovered from the index.
    pub fn new(store_bytes: Vec<u8>, index_bytes: Vec<u8>, base_offset: u64, config: Config) -> (r:
        Result<Segment, SegmentError>)
        ensures
            match r {
                Ok(segment) => {
                    &&& segment.wf()
                    &&& recovered_next_offset(index_bytes@, base_offset) == Ok::<u64, SegmentError>(
                        segment@.next_offset,
                    )
                    &&& segment@ == SegmentView {
                        store: store_bytes@,
                        index: index_bytes@,
                        index_capacity: MAX_INDEX_BYTES as nat,
                        base_offset,
                        next_offset: segment@.next_offset,
                        config,
                        closed: false,
                    }
                },
                Err(e) => recovered_next_offset(index_bytes@, base_offset) == Err::<
                    u64,
                    SegmentError,
                >(e),
            },
    {
        let store = Self::new_store(store_bytes);
        let (index, relative) = match Self::new_index(index_bytes) {
            Ok(opened) => opened,
            Err(e) => {
                return Err(e);
            },
        };
        proof {
            index.lemma_wf();
        }
        let next_offset: u64 = match base_offset.checked_add(relative) {
            Some(next) => next,
            None => {
                return Err(SegmentError::OffsetsExhausted);
            },
        };
        Ok(Segment { store, config, index, base_offset, next_offset, closed: false })
    }

    /// Opens the store of a segment.
    fn new_store(store_bytes: Vec<u8>) -> (store: Store)
        ensures
            store.wf(),
            store@ == store_bytes@,
    {
        Store::new(store_bytes)
    }

    /// Opens the index of a segment, and recovers from its last entry the
    /// next offset, relative to the base offset: one past the relative offset
    /// of that entry, or zero where the index is empty.
    fn new_index(index_bytes: Vec<u8>) -> (r: Result<(Index, u64), SegmentError>)
        ensures
            match r {
                Ok((index, relative)) => {
                    &&& index.wf()
                    &&& index@ == index_bytes@
                    &&& index.capacity() == MAX_INDEX_BYTES
                    &&& index@.len() % 12 == 0
                    &&& relative == index.entries().len()
                    &&& relative > 0 ==> index.entries().last().out + 1 == relative
                },
                Err(e) => recovered_next_offset(index_bytes@, 0) == Err::<u64, SegmentError>(e),
            },
    {
        let index = match Index::new(index_bytes) {
            Ok(index) => index,
            Err(e) => {
                return Err(SegmentError::Index(e));
            },
        };
        let count: u64 = index.size() / 12;
        match index.read(-1) {
            Ok(IndexRead { out, pos: _ }) => {
                if out as u64 + 1 != count {
                    return Err(SegmentError::Corrupt);
                }
                Ok((index, out as u64 + 1))
            },
            Err(_) => Ok((index, 0)),
        }
    }

    /// Appends a record. The record gets the next offset, which is returned;
    /// the store takes its encoding as one frame, and the index an entry for
    /// it. Where the index is full, the store has taken the frame all the same.
    pub fn append(&mut self, r: Record) -> (res: Result<u64, SegmentError>)
        requires
            old(self).wf(),
        ensures
            final(self).wf(),
            match res {
                Ok(offset) => {
                    &&& old(self)@.append_error(r@.value) is None
                    &&& offset == old(self)@.next_offset
                    &&& final(self)@ == old(self)@.after_append(r@.value)
                    &&& final(self)@.read_result(offset) == Ok::<RecordView, SegmentError>(
                        RecordView { value: r@.value, offset },
                    )
                },
                Err(e) => {
                    &&& old(self)@.append_error(r@.value) == Some(e)
                    &&& final(self)@ == if e == SegmentError::Index(IndexError::Full) {
                        old(self)@.with_frame(r@.value)
                    } else {
                        old(self)@
                    }
                },
            },
    {
        if self.closed {
            return Err(SegmentError::Closed);
        }
        let current_offset: u64 = self.next_offset;
        if current_offset == u64::MAX {
            return Err(SegmentError::OffsetsExhausted);
        }
        let mut rec = r;
        rec.offset = current_offset;
        let encoded = rec.encode();
        proof {
            self.index.lemma_wf();
        }
        let position: u64 = match self.store.append(encoded.as_slice()) {
            Ok(status) => status.position,
            Err(_) => {
                return Err(SegmentError::Store(StoreError::TooLarge));
            },
        };
        match self.index.write((current_offset - self.base_offset) as u32, position) {
            Ok(_) => {},
            Err(_) => {
                return Err(SegmentError::Index(IndexError::Full));
            },
        }
        self.next_offset = current_offset + 1;
        proof {
            lemma_read_after_append(old(self)@, r@.value);
        }
        Ok(current_offset)
    }

    /// Reads the record at `offset`.
    pub fn read(&self, offset: u64) -> (res: Result<Record, SegmentError>)
        requires
            self.wf(),
        ensures
            match res {
                Ok(rec) => self@.read_result(offset) == Ok::<RecordView, SegmentError>(rec@),
                Err(e) => self@.read_result(offset) == Err::<RecordView, SegmentError>(e),
            },
            !self@.closed && (offset < self@.base_offset || offset >= self@.next_offset) ==> res
                == Err::<Record, SegmentError>(SegmentError::NotFound),
    {
        if self.closed {
            return Err(SegmentError::Closed);
        }
        if offset < self.base_offset {
            return Err(SegmentError::NotFound);
        }
        let relative: u64 = offset - self.base_offset;
        if relative > 0x7fff_ffff_ffff_ffff {
            proof {
                self.index.lemma_wf();
            }
            return Err(SegmentError::NotFound);
        }
        let entry = match self.index.read(relative as i64) {
            Ok(entry) => entry,
            Err(_) => {
                return Err(SegmentError::NotFound);
            },
        };
        let payload = match self.store.read(entry.pos) {
            Ok(payload) => payload,
            Err(_) => {
                return Err(SegmentError::Store(StoreError::OutOfBounds));
            },
        };
        match Record::decode(payload.as_slice()) {
            Ok(rec) => Ok(rec),
            Err(_) => Err(SegmentError::Decode(DecodeError::Malformed)),
        }
    }

    /// Whether the store or the index has reached its configured limit. A
    /// caller is expected to open a new segment once this holds.
    pub fn is_maxed(&self) -> (r: bool)
        requires
            self.wf(),
        ensures
            r == self@.is_maxed(),
    {
        self.store.size() >= self.config.segment.max_store_bytes || self.index.size()
            >= self.config.segment.max_index_bytes
    }

    /// Closes the segment, as `close` does.
    pub fn remove(&mut self)
        requires
            old(self).wf(),
        ensures
            final(self).wf(),
            final(self)@ == (SegmentView {
                index_capacity: old(self)@.index.len(),
                closed: true,
                ..old(self)@
            }),
    {
        self.close()
    }

    /// Closes the segment: the index gives up the room behind its entries,
    /// and from here on appends and reads are refused. The bytes of the store
    /// and of the index stay as they are.
    pub fn close(&mut self)
        requires
            old(self).wf(),
        ensures
            final(self).wf(),
            final(self)@ == (SegmentView {
                index_capacity: old(self)@.index.len(),
                closed: true,
                ..old(self)@
            }),
    {
        self.index.close();
        self.closed = true;
    }

    /// The store of the segment.
    pub fn store(&self) -> (store: &Store)
        requires
            self.wf(),
        ensures
            store.wf(),
            store@ == self@.store,
    {
        &self.store
    }

    /// The index of the segment.
    pub fn index(&self) -> (index: &Index)
        requires
            self.wf(),
        ensures
            index.wf(),
            index@ == self@.index,
            index.capacity() == self@.index_capacity,
    {
        &self.index
    }

    /// The first offset that the segment may hold.
    pub fn base_offset(&self) -> (offset: u64)
        ensures
            offset == self@.base_offset,
    {
        self.base_offset
    }

    /// The offset that the next append gives out.
    pub fn next_offset(&self) -> (offset: u64)
        ensures
            offset == self@.next_offset,
    {
        self.next_offset
    }
}

} // verus!
