//! Records, their binary encoding, and a log that keeps records in memory.

use crate::varint::{
    canonical_varint, lemma_canonical_of_encoding, put_varint, take_canonical_varint,
    varint_encoding,
};
use vstd::prelude::*;
use vstd::slice::{slice_subrange, slice_to_vec};

verus! {

/// A record of the log: a payload, and the offset that the log gave it.
#[derive(Debug, Clone, PartialEq)]
pub struct Record {
    pub value: Vec<u8>,
    pub offset: u64,
}

/// What a record is: its payload as a sequence of bytes, and its offset.
pub struct RecordView {
    pub value: Seq<u8>,
    pub offset: u64,
}

impl View for Record {
    type V = RecordView;

    open spec fn view(&self) -> RecordView {
        RecordView { value: self.value@, offset: self.offset }
    }
}

impl Default for Record {
    fn default() -> (r: Record)
        ensures
            r@.value.len() == 0,
            r@.offset == 0,
    {
        Record { value: Vec::new(), offset: 0 }
    }
}

/// Why bytes could not be read as a record.
#[derive(Debug, Clone, Copy, PartialEq, Eq)]
pub enum DecodeError {
    /// The bytes are not the encoding of any record.
    Malformed,
}

/// The byte that opens the payload field: field 1, length-delimited.
pub const VALUE_KEY: u8 = 0x0A;

/// The byte that opens the offset field: field 2, variable-length integer.
pub const OFFSET_KEY: u8 = 0x10;

/// The payload field of an encoded record. An empty payload has no field.
pub open spec fn value_field(value: Seq<u8>) -> Seq<u8> {
    if value.len() == 0 {
        Seq::empty()
    } else {
        seq![VALUE_KEY] + varint_encoding(value.len()) + value
    }
}

/// The offset field of an encoded record. Offset zero has no field.
pub open spec fn offset_field(offset: u64) -> Seq<u8> {
    if offset == 0 {
        Seq::empty()
    } else {
        seq![OFFSET_KEY] + varint_encoding(offset as nat)
    }
}

/// The encoding of a record: its payload field, then its offset field.
pub open spec fn record_encoding(r: RecordView) -> Seq<u8> {
    value_field(r.value) + offset_field(r.offset)
}

/// Whether `bytes` are the encoding of `r`. The length of a payload is
/// written as a 64-bit number, so a record has an encoding only where the
/// length fits one.
pub open spec fn encodes(r: RecordView, bytes: Seq<u8>) -> bool {
    r.value.len() <= u64::MAX && record_encoding(r) == bytes
}

/// The record that `bytes` encode, if they encode one.
pub open spec fn record_decoding(bytes: Seq<u8>) -> Option<RecordView> {
    if exists|r: RecordView| encodes(r, bytes) {
        Some(choose|r: RecordView| encodes(r, bytes))
    } else {
        None
    }
}

/// Reads a payload field off the start of `b`: the payload and the number of
/// bytes that the field takes, both zero where `b` does not open one.
spec fn parse_value_field(b: Seq<u8>) -> Option<(Seq<u8>, nat)> {
    if b.len() == 0 || b[0] != VALUE_KEY {
        Some((Seq::empty(), 0))
    } else {
        match canonical_varint(b.skip(1)) {
            None => None,
            Some((n, k)) => if n == 0 || 1 + k + n > b.len() {
                None
            } else {
                Some((b.subrange(1 + k as int, 1 + k + n as int), (1 + k + n) as nat))
            },
        }
    }
}

/// Reads `b` as an offset field and nothing else.
spec fn parse_offset_field(b: Seq<u8>) -> Option<u64> {
    if b.len() == 0 {
        Some(0)
    } else if b[0] != OFFSET_KEY {
        None
    } else {
        match canonical_varint(b.skip(1)) {
            None => None,
            Some((o, k)) => if o == 0 || 1 + k != b.len() {
                None
            } else {
                Some(o)
            },
        }
    }
}

/// Reads `b` field by field, as `Record::decode` does.
spec fn parse_record(b: Seq<u8>) -> Option<RecordView> {
    match parse_value_field(b) {
        None => None,
        Some((value, used)) => match parse_offset_field(b.skip(used as int)) {
            None => None,
            Some(offset) => Some(RecordView { value, offset }),
        },
    }
}

proof fn lemma_offset_field_sound(b: Seq<u8>)
    requires
        parse_offset_field(b) is Some,
    ensures
        b == offset_field(parse_offset_field(b)->0),
{
    if b.len() > 0 {
        let (o, k) = canonical_varint(b.skip(1))->0;
        assert(b =~= seq![OFFSET_KEY] + b.skip(1).subrange(0, k as int));
    } else {
        assert(b =~= Seq::empty());
    }
}

proof fn lemma_offset_field_complete(offset: u64)
    ensures
        parse_offset_field(offset_field(offset)) == Some(offset),
{
    if offset != 0 {
        let b = offset_field(offset);
        let e = varint_encoding(offset as nat);
        lemma_canonical_of_encoding(offset as nat, Seq::empty());
        assert(b.skip(1) =~= e + Seq::<u8>::empty());
        assert(b[0] == OFFSET_KEY);
    }
}

proof fn lemma_parse_sound(b: Seq<u8>)
    requires
        parse_record(b) is Some,
    ensures
        record_encoding(parse_record(b)->0) == b,
{
    let (value, used) = parse_value_field(b)->0;
    lemma_offset_field_sound(b.skip(used as int));
    if b.len() == 0 || b[0] != VALUE_KEY {
        assert(b.skip(0) =~= b);
        assert(value_field(value) + b =~= b);
    } else {
        let (n, k) = canonical_varint(b.skip(1))->0;
        assert(value_field(value) =~= b.subrange(0, used as int)) by {
            assert(b.skip(1).subrange(0, k as int) =~= b.subrange(1, 1 + k as int));
        }
        assert(b.subrange(0, used as int) + b.skip(used as int) =~= b);
    }
}

/// A payload that field-by-field reading finds is shorter than the bytes read.
proof fn lemma_parse_bounded(b: Seq<u8>)
    requires
        parse_record(b) is Some,
    ensures
        parse_record(b)->0.value.len() <= u64::MAX,
{
}

proof fn lemma_parse_complete(r: RecordView)
    requires
        r.value.len() <= u64::MAX,
    ensures
        parse_record(record_encoding(r)) == Some(r),
{
    let b = record_encoding(r);
    let tail = offset_field(r.offset);
    lemma_offset_field_complete(r.offset);
    if r.value.len() == 0 {
        assert(b =~= tail);
        assert(r.value =~= Seq::empty());
        if tail.len() > 0 {
            assert(b[0] == OFFSET_KEY);
        }
        assert(b.skip(0) =~= b);
    } else {
        let e = varint_encoding(r.value.len());
        lemma_canonical_of_encoding(r.value.len(), r.value + tail);
        assert(b[0] == VALUE_KEY);
        assert(b.skip(1) =~= e + (r.value + tail));
        let used = 1 + e.len() + r.value.len();
        assert(b.subrange(1 + e.len() as int, used as int) =~= r.value);
        assert(b.skip(used as int) =~= tail);
    }
}

/// Field-by-field reading finds the record that bytes encode, and fails
/// exactly where they encode none.
proof fn lemma_decoding_is_parse(b: Seq<u8>)
    ensures
        record_decoding(b) == parse_record(b),
{
    if parse_record(b) is Some {
        lemma_parse_sound(b);
        lemma_parse_bounded(b);
        assert(encodes(parse_record(b)->0, b));
    }
    if exists|r: RecordView| encodes(r, b) {
        let r = choose|r: RecordView| encodes(r, b);
        lemma_parse_complete(r);
    }
}

/// Decoding undoes encoding: the encoding of a record encodes that record
/// and no other.
pub proof fn lemma_decoding_of_encoding(r: RecordView)
    requires
        r.value.len() <= u64::MAX,
    ensures
        record_decoding(record_encoding(r)) == Some(r),
{
    let b = record_encoding(r);
    assert(parse_record(b) == Some(r)) by {
        lemma_parse_complete(r);
    }
    assert(record_decoding(b) == parse_record(b)) by {
        lemma_decoding_is_parse(b);
    }
}

impl Record {
    /// Encodes the record.
    pub fn encode(&self) -> (out: Vec<u8>)
        ensures
            out@ == record_encoding(self@),
            record_decoding(out@) == Some(self@),
    {
        let mut out: Vec<u8> = Vec::new();
        proof {
            assert(self.value@.len() == self.value.len());
            lemma_decoding_of_encoding(self@);
        }
        if self.value.len() > 0 {
            out.push(VALUE_KEY);
            put_varint(self.value.len() as u64, &mut out);
            let ghost head = out@;
            out.extend_from_slice(self.value.as_slice());
            assert(out@ =~= head + self.value@);
        }
        if self.offset != 0 {
            out.push(OFFSET_KEY);
            put_varint(self.offset, &mut out);
        }
        assert(out@ =~= record_encoding(self@));
        out
    }

    /// Decodes a record: `bytes` must be exactly the encoding of one.
    pub fn decode(bytes: &[u8]) -> (r: Result<Record, DecodeError>)
        ensures
            match r {
                Ok(rec) => record_decoding(bytes@) == Some(rec@),
                Err(e) => record_decoding(bytes@) is None && e == DecodeError::Malformed,
            },
    {
        let n: usize = bytes.len();
        proof {
            lemma_decoding_is_parse(bytes@);
        }
        let mut value: Vec<u8> = Vec::new();
        let mut at: usize = 0;
        assert(n > 0 ==> bytes@.skip(1) =~= bytes@.subrange(1, n as int));
        if n > 0 && bytes[0] == VALUE_KEY {
            match take_canonical_varint(slice_subrange(bytes, 1, n)) {
                None => {
                    return Err(DecodeError::Malformed);
                },
                Some((len, k)) => {
                    if len == 0 || len > (n - 1 - k) as u64 {
                        return Err(DecodeError::Malformed);
                    }
                    at = 1 + k + len as usize;
                    value = slice_to_vec(slice_subrange(bytes, 1 + k, at));
                },
            }
        }
        assert(parse_value_field(bytes@) == Some((value@, at as nat)));
        if at == n {
            return Ok(Record { value, offset: 0 });
        }
        let ghost tail = bytes@.skip(at as int);
        assert(tail[0] == bytes@[at as int]);
        assert(tail.skip(1) =~= bytes@.subrange(at + 1, n as int));
        if bytes[at] != OFFSET_KEY {
            return Err(DecodeError::Malformed);
        }
        match take_canonical_varint(slice_subrange(bytes, at + 1, n)) {
            None => Err(DecodeError::Malformed),
            Some((offset, k)) => {
                if offset == 0 || k != n - at - 1 {
                    Err(DecodeError::Malformed)
                } else {
                    Ok(Record { value, offset })
                }
            },
        }
    }
}

/// A log that keeps its records in memory, each under the offset at which
/// it stands.
#[derive(Debug)]
pub struct Log {
    pub records: Vec<Record>,
}

impl View for Log {
    type V = Seq<RecordView>;

    /// The records of the log, in the order in which they were appended.
    open spec fn view(&self) -> Seq<RecordView> {
        self.records@.map_values(|r: Record| r@)
    }
}

impl Default for Log {
    fn default() -> (log: Log)
        ensures
            log@ == Seq::<RecordView>::empty(),
    {
        Log::new()
    }
}

impl Log {
    /// A log without records.
    pub fn new() -> (log: Log)
        ensures
            log@ == Seq::<RecordView>::empty(),
    {
        let log = Log { records: Vec::new() };
        assert(log@ =~= Seq::<RecordView>::empty());
        log
    }

    /// Appends a record. Whatever offset it came with, it is stored under
    /// the number of records that the log held before, which is returned.
    pub fn append(&mut self, r: Record) -> (res: Option<usize>)
        ensures
            res == Some(old(self)@.len() as usize),
            final(self)@ == old(self)@.push(
                RecordView { value: r@.value, offset: old(self)@.len() as u64 },
            ),
    {
        let offset: usize = self.records.len();
        let mut rec = r;
        rec.offset = offset as u64;
        self.records.push(rec);
        assert(self@ =~= old(self)@.push(
            RecordView { value: r@.value, offset: old(self)@.len() as u64 },
        ));
        Some(offset)
    }

    /// The record at `offset`, if the log holds that many.
    pub fn read(&self, offset: usize) -> (res: Option<Record>)
        ensures
            match res {
                Some(rec) => offset < self@.len() && rec@ == self@[offset as int],
                None => offset >= self@.len(),
            },
    {
        if offset < self.records.len() {
            let found = &self.records[offset];
            Some(Record { value: slice_to_vec(found.value.as_slice()), offset: found.offset })
        } else {
            None
        }
    }
}

} // verus!
