use dlog::record::{DecodeError, Record};

fn record(value: &[u8], offset: u64) -> Record {
    Record {
        value: value.to_vec(),
        offset,
    }
}

#[test]
fn record_encoding_of_payload_and_offset() {
    assert_eq!(
        record(b"abcd", 0).encode(),
        vec![0x0A, 0x04, b'a', b'b', b'c', b'd']
    );
    assert_eq!(record(b"", 0).encode(), Vec::<u8>::new());
    assert_eq!(record(b"", 1).encode(), vec![0x10, 0x01]);
    assert_eq!(
        record(b"abcd", 300).encode(),
        vec![0x0A, 0x04, b'a', b'b', b'c', b'd', 0x10, 0xAC, 0x02]
    );
    assert_eq!(record(b"", 127).encode(), vec![0x10, 0x7F]);
    assert_eq!(record(b"", 128).encode(), vec![0x10, 0x80, 0x01]);
}

#[test]
fn record_encoding_of_the_largest_offset() {
    assert_eq!(
        record(b"", u64::MAX).encode(),
        vec![0x10, 0xFF, 0xFF, 0xFF, 0xFF, 0xFF, 0xFF, 0xFF, 0xFF, 0xFF, 0x01]
    );
    assert_eq!(
        Record::decode(&[0x10, 0xFF, 0xFF, 0xFF, 0xFF, 0xFF, 0xFF, 0xFF, 0xFF, 0xFF, 0x01]),
        Ok(record(b"", u64::MAX))
    );
    assert_eq!(
        record(b"", 1 << 63).encode(),
        vec![0x10, 0x80, 0x80, 0x80, 0x80, 0x80, 0x80, 0x80, 0x80, 0x80, 0x01]
    );
    assert_eq!(
        record(b"", (1 << 63) - 1).encode(),
        vec![0x10, 0xFF, 0xFF, 0xFF, 0xFF, 0xFF, 0xFF, 0xFF, 0xFF, 0x7F]
    );
}

#[test]
fn record_encoding_of_a_long_payload() {
    let value = vec![9u8; 200];
    let encoded = record(&value, 2).encode();
    assert_eq!(encoded.len(), 1 + 2 + 200 + 2);
    assert_eq!(&encoded[..3], &[0x0A, 0xC8, 0x01]);
    assert_eq!(&encoded[3..203], &value[..]);
    assert_eq!(&encoded[203..], &[0x10, 0x02]);
    assert_eq!(Record::decode(&encoded), Ok(record(&value, 2)));
}

#[test]
fn record_decoding_undoes_encoding() {
    let cases = [
        record(b"", 0),
        record(b"", 1),
        record(b"a", 0),
        record(b"abcd", 0),
        record(b"abcd", 42),
        record(&[0x0A, 0x10, 0x00, 0xFF], 16),
        record(&[0u8; 127], 127),
        record(&[1u8; 128], 128),
        record(&[2u8; 16384], 16384),
        record(b"x", u64::MAX),
        record(b"x", u32::MAX as u64),
    ];
    for r in cases {
        let encoded = r.encode();
        assert_eq!(Record::decode(&encoded), Ok(r));
    }
}

#[test]
fn record_decoding_refuses_what_is_no_encoding() {
    let cases: [&[u8]; 16] = [
        // the offset field of offset zero is never written
        &[0x10, 0x00],
        // one, written in two bytes
        &[0x10, 0x81, 0x00],
        // the payload field of an empty payload is never written
        &[0x0A, 0x00],
        // the payload is shorter than announced
        &[0x0A, 0x05, b'a', b'b', b'c', b'd'],
        // the fields in the wrong order
        &[0x10, 0x01, 0x0A, 0x01, b'a'],
        // a field that a record does not have
        &[0x18, 0x01],
        // a key and nothing behind it
        &[0x10],
        &[0x0A],
        // bytes behind the record
        &[0x10, 0x01, 0x00],
        &[0x0A, 0x01, b'a', 0x00],
        // an integer that does not end
        &[0x10, 0x80],
        &[0x10, 0x80, 0x80, 0x80, 0x80, 0x80, 0x80, 0x80, 0x80, 0x80, 0x80, 0x01],
        // an integer past 64 bits
        &[0x10, 0xFF, 0xFF, 0xFF, 0xFF, 0xFF, 0xFF, 0xFF, 0xFF, 0xFF, 0x02],
        // a field given twice
        &[0x10, 0x01, 0x10, 0x01],
        &[0x0A, 0x01, b'a', 0x0A, 0x01, b'b'],
        // the length of the payload written in two bytes
        &[0x0A, 0x81, 0x00, b'a'],
    ];
    for bytes in cases {
        assert_eq!(Record::decode(bytes), Err(DecodeError::Malformed));
    }
}

#[test]
fn record_decoding_of_payload_alone_and_offset_alone() {
    assert_eq!(Record::decode(&[]), Ok(record(b"", 0)));
    assert_eq!(Record::decode(&[0x10, 0x05]), Ok(record(b"", 5)));
    assert_eq!(Record::decode(&[0x0A, 0x01, 0x10]), Ok(record(&[0x10], 0)));
    assert_eq!(
        Record::decode(&[0x0A, 0x02, 0x10, 0x01, 0x10, 0x03]),
        Ok(record(&[0x10, 0x01], 3))
    );
}

#[test]
fn record_encoding_is_what_prost_writes_for_the_two_fields() {
    let cases = [
        record(b"abcd", 0),
        record(b"abcd", 1),
        record(b"", 77),
        record(&[5u8; 300], u64::MAX),
        record(b"", 0),
    ];
    for r in cases {
        let mut expected: Vec<u8> = Vec::new();
        if !r.value.is_empty() {
            prost::encoding::bytes::encode(1, &r.value, &mut expected);
        }
        if r.offset != 0 {
            prost::encoding::uint64::encode(2, &r.offset, &mut expected);
        }
        assert_eq!(r.encode(), expected);
    }
}
