use commitlog::config::ConfigBuilder;
use commitlog::index::IndexError;
use commitlog::log::INDEX_ENTRY_LENGTH;
use commitlog::record::Record;
use commitlog::segment::Segment;
use commitlog::segment::SegmentError;

#[test]
fn segment_test() {
    let config = ConfigBuilder::new((INDEX_ENTRY_LENGTH * 3) as u64, 1024, 0).build();

    let record: Record = Record {
        value: "hello world".as_bytes().to_vec(),
        offset: None,
    };

    let mut segment = Segment::new(Vec::new(), Vec::new(), 16, config);

    assert_eq!(segment.next_offset, 16);
    assert_eq!(segment.is_maxed(), false);

    for i in 0..3 {
        let offset = segment.append(record.clone()).unwrap();
        assert_eq!(16 + i, offset);

        let record_1 = segment.read(offset).unwrap();
        assert_eq!(record_1.value, record.clone().value);
    }

    let result = segment.append(record.clone());
    assert!(matches!(
        result,
        Err(SegmentError::IndexErrors(IndexError::IndexFullError))
    ));

    // index should be full
    assert!(segment.is_maxed());

    let config = ConfigBuilder::new(1024, (record.value.len() * 3) as u64, 0).build();

    // reopen the same files under a store cap the data already exceeds
    segment.close();
    let store_bytes = segment.store.data.clone();
    let index_bytes = segment.index.data.clone();

    let mut segment = Segment::new(store_bytes, index_bytes, 16, config);

    // store should be full
    assert!(segment.is_maxed());

    // clear segment: remove it and open fresh files in its place
    segment.remove();

    let segment = Segment::new(Vec::new(), Vec::new(), 16, config);

    // store and index should NOT be full
    assert!(!segment.is_maxed());
}

#[test]
fn reopen_resumes_next_offset() {
    let config = ConfigBuilder::new(1024, 1024, 0).build();
    let mut segment = Segment::new(Vec::new(), Vec::new(), 7, config);
    let record = Record {
        value: b"abc".to_vec(),
        offset: None,
    };
    assert_eq!(segment.append(record.clone()).unwrap(), 7);
    assert_eq!(segment.append(record.clone()).unwrap(), 8);
    segment.close();
    let reopened = Segment::new(segment.store.data.clone(), segment.index.data.clone(), 7, config);
    assert_eq!(reopened.next_offset, 9);
    assert_eq!(reopened.read(7).unwrap().value, b"abc".to_vec());
    assert_eq!(reopened.read(8).unwrap().offset, Some(8));
}

#[test]
fn store_full_carries_the_record_back() {
    let config = ConfigBuilder::new(1024, 10, 0).build();
    let mut segment = Segment::new(Vec::new(), Vec::new(), 0, config);
    let record = Record {
        value: b"hello world".to_vec(),
        offset: None,
    };
    match segment.append(record) {
        Err(SegmentError::StoreFull(rec)) => {
            assert_eq!(rec.value, b"hello world".to_vec());
            assert_eq!(rec.offset, Some(0));
        }
        _ => panic!("expected the store to be full"),
    }
    // nothing was written
    assert_eq!(segment.next_offset, 0);
    assert_eq!(segment.store.size(), 0);
}
