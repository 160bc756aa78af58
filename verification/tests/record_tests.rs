use commitlog::record::decode_record;
use commitlog::record::encode_record;
use commitlog::record::Record;
use commitlog::segment::SegmentError;

#[test]
fn encode_decode_round_trip() {
    let record = Record {
        value: b"hello world".to_vec(),
        offset: Some(5),
    };
    let bytes = encode_record(&record);
    let back = decode_record(&bytes).unwrap();
    assert_eq!(back.value, record.value);
    assert_eq!(back.offset, record.offset);
}

#[test]
fn encode_decode_round_trip_empty_value() {
    let record = Record {
        value: Vec::new(),
        offset: Some(0),
    };
    let bytes = encode_record(&record);
    assert_eq!(bytes, vec![0x10, 0x00]);
    let back = decode_record(&bytes).unwrap();
    assert_eq!(back.value, record.value);
    assert_eq!(back.offset, record.offset);
}

#[test]
fn known_encoded_sizes() {
    // the sizes the segment capacity arithmetic rests on
    let r1 = Record {
        value: "hello world1".as_bytes().to_vec(),
        offset: Some(0),
    };
    assert_eq!(encode_record(&r1).len(), 16);
    let r2 = Record {
        value: "hello".as_bytes().to_vec(),
        offset: Some(1),
    };
    assert_eq!(encode_record(&r2).len(), 9);
    let r3 = Record {
        value: "hello world".as_bytes().to_vec(),
        offset: Some(300),
    };
    assert_eq!(encode_record(&r3).len(), 16);
}

#[test]
fn decode_rejects_unknown_tag() {
    let r = decode_record(&vec![0xff, 0x01]);
    assert!(matches!(r, Err(SegmentError::DecodeError)));
}

#[test]
fn decode_rejects_truncated_value() {
    // value field claims 5 bytes but only 2 follow
    let r = decode_record(&vec![0x0a, 0x05, 0x61, 0x62]);
    assert!(matches!(r, Err(SegmentError::DecodeError)));
}
