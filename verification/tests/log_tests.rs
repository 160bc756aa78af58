use commitlog::config::Config;
use commitlog::config::ConfigBuilder;
use commitlog::index::IndexError;
use commitlog::log::check_log_files;
use commitlog::log::parse_base_offset;
use commitlog::log::sort_base_offsets;
use commitlog::log::Log;
use commitlog::log::LogError;
use commitlog::log::SegmentFiles;
use commitlog::record::Record;
use commitlog::segment::SegmentError;

fn files_of_closed_log(log: &Log) -> Vec<SegmentFiles> {
    let mut files = Vec::new();
    for segment in &log.segments {
        files.push(SegmentFiles {
            base_offset: segment.base_offset,
            store_bytes: segment.store.data.clone(),
            index_bytes: segment.index.data.clone(),
        });
    }
    files
}

#[test]
fn log_test_append_read() {
    // test append and read a record
    let config = ConfigBuilder::new(1024, 1024, 0)
        .with_max_record_size_kb(400)
        .build();

    let mut log = Log::new(Vec::new(), Some(config));

    let record = Record {
        value: "hello world".as_bytes().to_vec(),
        offset: None,
    };

    let offset = log.append(record.clone()).unwrap();

    let read_record = log.read(offset).unwrap();
    assert_eq!(record.value, read_record.value);
}

#[test]
fn log_test_out_of_range() {
    let config = ConfigBuilder::new(1024, 1024, 0)
        .with_max_record_size_kb(400)
        .build();
    let log = Log::new(Vec::new(), Some(config));
    let res = log.read(1);
    assert!(matches!(
        res,
        Err(LogError::SegmentErrors(SegmentError::IndexErrors(
            IndexError::IndexEntryNotFound(1)
        )))
    ));
}

#[test]
fn log_test_init_existing() {
    let config = ConfigBuilder::new(1024, 100, 0)
        .with_max_record_size_kb(400)
        .build();
    let mut log = Log::new(Vec::new(), Some(config));
    let record: Record = Record {
        value: "hello world".as_bytes().to_vec(),
        offset: None,
    };

    for _i in 0..3 {
        log.append(record.clone()).unwrap();
    }
    assert_eq!(log.lowest_offset().unwrap(), 0);
    assert_eq!(log.highest_offset().unwrap(), 2);

    log.close();

    let files = files_of_closed_log(&log);
    let log = Log::new(files, Some(config));
    assert_eq!(log.lowest_offset().unwrap(), 0);
    assert_eq!(log.highest_offset().unwrap(), 2);
}

#[test]
fn log_test_read_write_plenty() {
    let config = ConfigBuilder::new(1024, 1024, 0)
        .with_max_record_size_kb(400)
        .build();
    let mut log = Log::new(Vec::new(), Some(config));

    for i in 0..30 {
        let record: Record = Record {
            value: format!("hello world{}", i).into_bytes(),
            offset: None,
        };
        log.append(record).unwrap();
    }

    let c = ConfigBuilder::new(0, 0, 0);
    let d = c.with_max_record_size_kb(78);
    let _e = d.build();

    let record = log.read(29).unwrap();

    assert_eq!(record.offset, Some(29));
    assert_eq!(
        String::from_utf8(record.value).unwrap().as_str(),
        "hello world29"
    );
}

#[test]
fn test_create_new_segment() {
    let config = ConfigBuilder::new(1024, 50, 0)
        .with_max_record_size_kb(400)
        .build();
    let mut log = Log::new(Vec::new(), Some(config));

    // this record "hello world1" is serialized into 16 bytes (when the
    // offset is added) plus the len of the record (8 bytes), 24 in all
    let record: Record = Record {
        value: "hello world1".as_bytes().to_vec(),
        offset: None,
    };
    log.append(record).unwrap(); // this should succeed

    // there should be one segment
    assert_eq!(log.segment_count(), 1);

    // 9 + 8 = 17; the store holds 24 + 17 = 41 bytes
    let record_2 = Record {
        value: "hello".as_bytes().to_vec(),
        offset: None,
    };

    log.append(record_2).unwrap(); // this should succeed

    // there should still be one segment
    assert_eq!(log.segment_count(), 1);

    // anything more no longer fits under the 50-byte cap
    let record_3 = Record {
        value: "he".as_bytes().to_vec(),
        offset: None,
    };

    log.append(record_3).unwrap(); // succeeds on a fresh segment

    // there should be 2 segments
    assert_eq!(log.segment_count(), 2);

    // the record that caused the rollover is readable
    let last = log.read(2).unwrap();
    assert_eq!(last.value, "he".as_bytes().to_vec());
}

#[test]
fn offsets_are_dense_from_initial_offset() {
    let config = ConfigBuilder::new(1024, 1024, 5).build();
    let mut log = Log::new(Vec::new(), Some(config));
    let record = Record {
        value: b"abc".to_vec(),
        offset: None,
    };
    assert_eq!(log.append(record.clone()).unwrap(), 5);
    assert_eq!(log.append(record.clone()).unwrap(), 6);
    assert_eq!(log.append(record.clone()).unwrap(), 7);
    assert_eq!(log.lowest_offset().unwrap(), 5);
    assert_eq!(log.highest_offset().unwrap(), 7);
}

#[test]
fn too_large_record_is_rejected() {
    let config = ConfigBuilder::new(1024, 1024, 0)
        .with_max_record_size_kb(4)
        .build();
    let mut log = Log::new(Vec::new(), Some(config));
    let record = Record {
        value: b"hello".to_vec(),
        offset: None,
    };
    assert!(matches!(log.append(record), Err(LogError::RecordTooLarge)));
    let small = Record {
        value: b"hi".to_vec(),
        offset: None,
    };
    assert_eq!(log.append(small).unwrap(), 0);
}

#[test]
fn proactive_rollover_after_index_fills() {
    // room for exactly three entries, plenty of store
    let config = ConfigBuilder::new(36, 1024, 0).build();
    let mut log = Log::new(Vec::new(), Some(config));
    let record = Record {
        value: b"x".to_vec(),
        offset: None,
    };
    // the proactive rollover keeps the index from ever rejecting a write
    // here, so drive the segment directly as well
    for i in 0..3 {
        assert_eq!(log.append(record.clone()).unwrap(), i);
    }
    assert_eq!(log.segment_count(), 2);
}

#[test]
fn truncate_drops_only_whole_low_segments() {
    let config = ConfigBuilder::new(1024, 50, 0).build();
    let mut log = Log::new(Vec::new(), Some(config));
    for i in 0..6 {
        let record = Record {
            value: format!("rec{}", i).into_bytes(),
            offset: None,
        };
        log.append(record).unwrap();
    }
    let before = log.segment_count();
    assert!(before > 1);
    log.truncate(1);
    // no remaining segment ends at or below offset 1
    for segment in &log.segments {
        assert!(segment.next_offset > 2);
    }
    // everything above the truncation point is still readable
    for i in 2..6 {
        let rec = log.read(i).unwrap();
        assert_eq!(rec.value, format!("rec{}", i).into_bytes());
    }
}

#[test]
fn reset_yields_empty_log() {
    let config = ConfigBuilder::new(1024, 1024, 3).build();
    let mut log = Log::new(Vec::new(), Some(config));
    let record = Record {
        value: b"abc".to_vec(),
        offset: None,
    };
    log.append(record).unwrap();
    log.reset();
    assert_eq!(log.segment_count(), 1);
    assert_eq!(log.lowest_offset().unwrap(), 3);
    assert!(matches!(
        log.read(3),
        Err(LogError::SegmentErrors(SegmentError::IndexErrors(
            IndexError::IndexEntryNotFound(0)
        )))
    ));
}

#[test]
fn parse_base_offset_reads_decimal_names() {
    assert_eq!(parse_base_offset("0").unwrap(), 0);
    assert_eq!(parse_base_offset("123").unwrap(), 123);
    assert_eq!(parse_base_offset("+42").unwrap(), 42);
    assert_eq!(
        parse_base_offset("18446744073709551615").unwrap(),
        u64::MAX
    );
    assert!(matches!(
        parse_base_offset("18446744073709551616"),
        Err(LogError::ParseIntError)
    ));
    assert!(matches!(parse_base_offset(""), Err(LogError::ParseIntError)));
    assert!(matches!(parse_base_offset("+"), Err(LogError::ParseIntError)));
    assert!(matches!(
        parse_base_offset("12a"),
        Err(LogError::ParseIntError)
    ));
}

#[test]
fn sort_base_offsets_orders_ascending() {
    let sorted = sort_base_offsets(vec![30, 0, 20, 10]);
    assert_eq!(sorted, vec![0, 10, 20, 30]);
}

#[test]
fn default_config_matches_builder() {
    let d = Config::default();
    assert_eq!(d.get_max_index_bytes(), 1024);
    assert_eq!(d.get_max_store_bytes(), 1024);
    assert_eq!(d.initial_offset, 0);
    assert_eq!(d.max_record_size_kb, 400);
}

#[test]
fn check_log_files_accepts_a_closed_log_and_rejects_torn_files() {
    let config = ConfigBuilder::new(1024, 50, 0).build();
    let mut log = Log::new(Vec::new(), Some(config));
    for i in 0..4 {
        let record = Record {
            value: format!("rec{}", i).into_bytes(),
            offset: None,
        };
        log.append(record).unwrap();
    }
    log.close();
    let files = files_of_closed_log(&log);
    assert!(files.len() > 1);
    assert!(check_log_files(&files, &config));

    // a torn index file is refused
    let mut torn = files_of_closed_log(&log);
    torn[0].index_bytes.pop();
    assert!(!check_log_files(&torn, &config));

    // a truncated store file is refused
    let mut torn = files_of_closed_log(&log);
    torn[0].store_bytes.pop();
    assert!(!check_log_files(&torn, &config));

    // files out of order are refused
    let mut swapped = files_of_closed_log(&log);
    swapped.swap(0, 1);
    assert!(!check_log_files(&swapped, &config));
}
