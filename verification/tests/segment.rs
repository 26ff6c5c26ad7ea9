use dlog::index::IndexError;
use dlog::record::{DecodeError, Record};
use dlog::{Config, Segment, SegmentError, StoreError, ENTWIDTH};

fn fresh(base_offset: u64, config: Config) -> Segment {
    Segment::new(Vec::new(), Vec::new(), base_offset, config).unwrap()
}

fn roomy() -> Config {
    let mut c = Config::default();
    c.segment.max_store_bytes = 1024;
    c.segment.max_index_bytes = 1024;
    c
}

fn record(value: &[u8]) -> Record {
    Record {
        value: value.to_vec(),
        offset: 0,
    }
}

#[test]
fn segment_test_new() {
    let c = Config::default();

    assert!(Segment::new(Vec::new(), Vec::new(), 0, c).is_ok());
}

#[test]
fn segment_test_append() {
    let c = Config::default();
    let mut seg = Segment::new(Vec::new(), Vec::new(), 0, c).unwrap();
    let r = Record {
        value: "abcd".chars().map(|c| c as u8).collect(),
        offset: 0,
    };

    let offset = seg.append(r.clone()).unwrap();

    assert_eq!(offset, 0);

    let other_record = seg.read(offset).unwrap();

    assert_eq!(r, other_record);
}

#[test]
fn test_something() {
    let mut c = Config::default();
    c.segment.max_store_bytes = 1024;
    c.segment.max_index_bytes = (ENTWIDTH as u64) * 3;
    let _segment = Segment::new(Vec::new(), Vec::new(), 100, c).unwrap();
}

#[test]
fn segment_reads_back_what_was_appended() {
    let mut seg = fresh(16, roomy());
    let values: [&[u8]; 5] = [b"", b"a", b"abcd", &[0u8; 100], &[0xFF, 0x0A, 0x10]];
    let mut offsets = Vec::new();
    for v in values {
        let r = Record {
            value: v.to_vec(),
            offset: 999,
        };
        offsets.push(seg.append(r).unwrap());
    }
    for (v, o) in values.iter().zip(offsets.iter()) {
        let got = seg.read(*o).unwrap();
        assert_eq!(got.value, v.to_vec());
        assert_eq!(got.offset, *o);
    }
}

#[test]
fn segment_gives_out_consecutive_offsets() {
    let mut seg = fresh(100, roomy());
    assert_eq!(seg.base_offset(), 100);
    assert_eq!(seg.next_offset(), 100);
    for i in 0..10u64 {
        assert_eq!(seg.append(record(b"x")), Ok(100 + i));
        assert_eq!(seg.next_offset(), 101 + i);
    }
    assert_eq!(seg.base_offset(), 100);
}

#[test]
fn segment_sizes_after_appends() {
    let mut seg = fresh(0, roomy());
    assert_eq!(seg.index().size(), 0);
    assert_eq!(seg.store().size(), 0);

    // offset 0 is not written: key, length and four bytes of payload
    seg.append(record(b"abcd")).unwrap();
    assert_eq!(seg.index().size(), 12);
    assert_eq!(seg.store().size(), 8 + 6);

    // offset 1 takes two bytes more
    seg.append(record(b"abcd")).unwrap();
    assert_eq!(seg.index().size(), 24);
    assert_eq!(seg.store().size(), (8 + 6) + (8 + 8));

    // an empty payload is not written: the offset field alone
    seg.append(record(b"")).unwrap();
    assert_eq!(seg.index().size(), 3 * ENTWIDTH as u64);
    assert_eq!(seg.store().size(), (8 + 6) + (8 + 8) + (8 + 2));

    assert_eq!(
        seg.store().as_bytes(),
        &[
            0, 0, 0, 0, 0, 0, 0, 6, 0x0A, 4, b'a', b'b', b'c', b'd', //
            0, 0, 0, 0, 0, 0, 0, 8, 0x0A, 4, b'a', b'b', b'c', b'd', 0x10, 1, //
            0, 0, 0, 0, 0, 0, 0, 2, 0x10, 2,
        ][..]
    );
    assert_eq!(
        seg.index().as_bytes(),
        &[
            0, 0, 0, 0, 0, 0, 0, 0, 0, 0, 0, 0, //
            0, 0, 0, 1, 0, 0, 0, 0, 0, 0, 0, 14, //
            0, 0, 0, 2, 0, 0, 0, 0, 0, 0, 0, 30,
        ][..]
    );
}

#[test]
fn segment_read_of_offset_not_appended_is_not_found() {
    let mut seg = fresh(10, roomy());
    assert_eq!(seg.read(10), Err(SegmentError::NotFound));
    assert_eq!(seg.read(0), Err(SegmentError::NotFound));
    assert_eq!(seg.read(u64::MAX), Err(SegmentError::NotFound));
    seg.append(record(b"one")).unwrap();
    seg.append(record(b"two")).unwrap();
    assert!(seg.read(10).is_ok());
    assert!(seg.read(11).is_ok());
    assert_eq!(seg.read(12), Err(SegmentError::NotFound));
    assert_eq!(seg.read(9), Err(SegmentError::NotFound));
    assert_eq!(seg.read(0), Err(SegmentError::NotFound));
    assert_eq!(seg.read(u64::MAX), Err(SegmentError::NotFound));
    assert_eq!(seg.read(1 << 63), Err(SegmentError::NotFound));
}

#[test]
fn segment_reopened_continues_with_the_next_offset() {
    let mut seg = fresh(7, roomy());
    assert_eq!(seg.append(record(b"one")), Ok(7));
    assert_eq!(seg.append(record(b"two")), Ok(8));
    assert_eq!(seg.append(record(b"three")), Ok(9));
    seg.close();

    let store_bytes = seg.store().as_bytes().to_vec();
    let index_bytes = seg.index().as_bytes().to_vec();
    assert_eq!(index_bytes.len(), 36);

    let mut again = Segment::new(store_bytes, index_bytes, 7, roomy()).unwrap();
    assert_eq!(again.next_offset(), 10);
    assert_eq!(again.base_offset(), 7);
    assert_eq!(again.read(8).unwrap().value, b"two".to_vec());
    assert_eq!(again.append(record(b"four")), Ok(10));
    assert_eq!(again.read(10).unwrap().value, b"four".to_vec());
    assert_eq!(again.read(10).unwrap().offset, 10);
    assert_eq!(again.read(7).unwrap().value, b"one".to_vec());
    assert_eq!(again.read(9).unwrap().value, b"three".to_vec());
}

#[test]
fn segment_is_maxed_after_three_entries() {
    let mut c = Config::default();
    c.segment.max_store_bytes = 1024;
    c.segment.max_index_bytes = (ENTWIDTH as u64) * 3;
    let mut seg = fresh(0, c);
    assert!(!seg.is_maxed());
    seg.append(record(b"a")).unwrap();
    assert!(!seg.is_maxed());
    seg.append(record(b"b")).unwrap();
    assert!(!seg.is_maxed());
    seg.append(record(b"c")).unwrap();
    assert!(seg.is_maxed());
    seg.append(record(b"d")).unwrap();
    assert!(seg.is_maxed());
}

#[test]
fn segment_is_maxed_by_the_store() {
    let mut c = Config::default();
    c.segment.max_store_bytes = 28;
    c.segment.max_index_bytes = 1024;
    let mut seg = fresh(0, c);
    assert!(!seg.is_maxed());
    // 8 + 6 bytes
    seg.append(record(b"abcd")).unwrap();
    assert!(!seg.is_maxed());
    // 8 + 6 bytes more: 28 in all
    seg.append(record(b"ab")).unwrap();
    assert!(seg.is_maxed());
}

#[test]
fn segment_with_limits_of_zero_is_maxed_from_the_start() {
    let seg = fresh(0, Config::default());
    assert!(seg.is_maxed());
}

#[test]
fn segment_append_past_a_full_index_is_refused() {
    let mut seg = fresh(0, roomy());
    for i in 0..85u64 {
        assert_eq!(seg.append(record(b"")), Ok(i));
    }
    let store_before = seg.store().size();
    assert_eq!(
        seg.append(record(b"late")),
        Err(SegmentError::Index(IndexError::Full))
    );
    // the store took the frame before the index refused
    assert_eq!(seg.store().size(), store_before + 8 + 8);
    assert_eq!(seg.index().size(), 85 * 12);
    assert_eq!(seg.next_offset(), 85);
    assert_eq!(seg.read(85), Err(SegmentError::NotFound));
    assert_eq!(seg.read(84).unwrap().offset, 84);
}

#[test]
fn segment_closed_refuses_appends_and_reads() {
    let mut seg = fresh(0, roomy());
    seg.append(record(b"abcd")).unwrap();
    seg.remove();
    assert_eq!(seg.append(record(b"more")), Err(SegmentError::Closed));
    assert_eq!(seg.read(0), Err(SegmentError::Closed));
    assert_eq!(seg.read(5), Err(SegmentError::Closed));
    assert_eq!(seg.store().size(), 14);
    assert_eq!(seg.index().size(), 12);
    assert_eq!(seg.next_offset(), 1);
    seg.close();
    seg.remove();
    assert_eq!(seg.read(0), Err(SegmentError::Closed));
}

#[test]
fn segment_at_the_last_offset() {
    let mut seg = fresh(u64::MAX, roomy());
    assert_eq!(
        seg.append(record(b"x")),
        Err(SegmentError::OffsetsExhausted)
    );
    assert_eq!(seg.store().size(), 0);

    let mut seg = fresh(u64::MAX - 1, roomy());
    assert_eq!(seg.append(record(b"x")), Ok(u64::MAX - 1));
    assert_eq!(
        seg.append(record(b"y")),
        Err(SegmentError::OffsetsExhausted)
    );
    assert_eq!(seg.read(u64::MAX - 1).unwrap().value, b"x".to_vec());
    assert_eq!(seg.read(u64::MAX), Err(SegmentError::NotFound));
}

#[test]
fn segment_new_refuses_an_index_that_is_none() {
    let one_entry = vec![0, 0, 0, 0, 0, 0, 0, 0, 0, 0, 0, 0];
    assert!(Segment::new(Vec::new(), one_entry.clone(), 0, roomy()).is_ok());
    assert_eq!(
        Segment::new(Vec::new(), one_entry, u64::MAX, roomy()).unwrap_err(),
        SegmentError::OffsetsExhausted
    );
    // the only entry is numbered 5
    assert_eq!(
        Segment::new(
            Vec::new(),
            vec![0, 0, 0, 5, 0, 0, 0, 0, 0, 0, 0, 0],
            0,
            roomy()
        )
        .unwrap_err(),
        SegmentError::Corrupt
    );
    assert_eq!(
        Segment::new(Vec::new(), vec![0u8; 7], 0, roomy()).unwrap_err(),
        SegmentError::Index(IndexError::Misaligned)
    );
    assert_eq!(
        Segment::new(Vec::new(), vec![0u8; 1032], 0, roomy()).unwrap_err(),
        SegmentError::Index(IndexError::TooLarge)
    );
}

#[test]
fn segment_read_of_bytes_that_are_no_record() {
    // one entry that points at position 0, where the store holds a frame of
    // one byte that is no record
    let index = vec![0, 0, 0, 0, 0, 0, 0, 0, 0, 0, 0, 0];
    let store = vec![0, 0, 0, 0, 0, 0, 0, 1, 0xFF];
    let seg = Segment::new(store, index, 0, roomy()).unwrap();
    assert_eq!(
        seg.read(0),
        Err(SegmentError::Decode(DecodeError::Malformed))
    );
}

#[test]
fn segment_read_of_entry_that_points_outside_the_store() {
    let index = vec![0, 0, 0, 0, 0, 0, 0, 0, 0, 0, 0, 100];
    let seg = Segment::new(Vec::new(), index, 0, roomy()).unwrap();
    assert_eq!(
        seg.read(0),
        Err(SegmentError::Store(StoreError::OutOfBounds))
    );
}

#[test]
fn segment_appends_keep_earlier_records() {
    let mut seg = fresh(3, roomy());
    seg.append(record(b"first")).unwrap();
    let before = seg.read(3).unwrap();
    for _ in 0..20 {
        seg.append(record(b"later")).unwrap();
    }
    assert_eq!(seg.read(3).unwrap(), before);
    assert_eq!(before.value, b"first".to_vec());
    assert_eq!(before.offset, 3);
}
