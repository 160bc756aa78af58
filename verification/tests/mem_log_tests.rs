use commitlog::mem_log::Log;
use commitlog::record::Record;

#[test]
fn mem_log_append_read() {
    let mut log = Log::new();
    let record = Record {
        value: b"hello".to_vec(),
        offset: None,
    };
    let offset = log.append(record);
    assert_eq!(offset, 0);
    let back = log.read(0).unwrap();
    assert_eq!(back.value, b"hello".to_vec());
    assert_eq!(back.offset, Some(0));
    assert!(log.read(1).is_none());
}
