//! An append-only record log kept in one segment: a store of length-prefixed
//! records, an index of fixed-width entries that maps a record's offset to its
//! position in the store, and the segment that ties the two together. Beside
//! it stands a log that keeps its records in memory.

use vstd::prelude::*;

pub mod config;
pub mod endian;
pub mod index;
pub mod record;
pub mod segment;
pub mod store;
pub mod varint;

pub use config::{Config, SegmentConfig};
pub use index::{Index, IndexError, IndexRead, IndexReadErr, ENTWIDTH};
pub use segment::{Segment, SegmentError, SegmentView};
pub use store::{Store, StoreError, StoreWriteStatus};

verus! {

/// A record of the in-memory log: a payload, and its place in the log once it
/// has one.
#[derive(Debug, Clone, PartialEq)]
pub struct Record {
    pub value: Vec<u8>,
    pub offset: Option<usize>,
}

/// What a record is: its payload as a sequence of bytes, and its place.
pub struct RecordView {
    pub value: Seq<u8>,
    pub offset: Option<usize>,
}

impl View for Record {
    type V = RecordView;

    open spec fn view(&self) -> RecordView {
        RecordView { value: self.value@, offset: self.offset }
    }
}

impl Default for Record {
    fn default() -> (r: Record)
        ensures
            r@.value.len() == 0,
            r@.offset is None,
    {
        Record { value: Vec::new(), offset: None }
    }
}

/// A log that keeps its records in memory, each at the place that it names.
#[derive(Debug)]
pub struct Log {
    pub records: Vec<Record>,
}

impl View for Log {
    type V = Seq<RecordView>;

    /// The records of the log, in the order in which they were appended.
    open spec fn view(&self) -> Seq<RecordView> {
        self.records@.map_values(|r: Record| r@)
    }
}

impl Default for Log {
    fn default() -> (log: Log)
        ensures
            log@ == Seq::<RecordView>::empty(),
    {
        Log::new()
    }
}

impl Log {
    /// A log without records.
    pub fn new() -> (log: Log)
        ensures
            log@ == Seq::<RecordView>::empty(),
    {
        let log = Log { records: Vec::new() };
        assert(log@ =~= Seq::<RecordView>::empty());
        log
    }

    /// Appends a record. Whatever place it came with, it is stored at the
    /// number of records that the log held before, which is returned.
    pub fn append(&mut self, r: Record) -> (res: Option<usize>)
        ensures
            res == Some(old(self)@.len() as usize),
            final(self)@ == old(self)@.push(
                RecordView { value: r@.value, offset: Some(old(self)@.len() as usize) },
            ),
    {
        let offset: usize = self.records.len();
        let mut rec = r;
        rec.offset = Some(offset);
        self.records.push(rec);
        assert(self@ =~= old(self)@.push(
            RecordView { value: r@.value, offset: Some(old(self)@.len() as usize) },
        ));
        Some(offset)
    }

    /// The record at `offset`, if the log holds that many.
    pub fn read(&self, offset: usize) -> (res: Option<Record>)
        ensures
            match res {
                Some(rec) => offset < self@.len() && rec@ == self@[offset as int],
                None => offset >= self@.len(),
            },
    {
        if offset < self.records.len() {
            let found = &self.records[offset];
            Some(Record { value: vstd::slice::slice_to_vec(found.value.as_slice()), offset: found.offset })
        } else {
            None
        }
    }
}

} // verus!
