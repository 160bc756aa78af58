use commitlog::config::ConfigBuilder;
use commitlog::store::Store;
use commitlog::store::StoreError;

#[test]
fn store_test() {
    let config = ConfigBuilder::new(1024, 1024, 0).build();
    let mut store = Store::new(Vec::new(), config);

    let record_1 = "hello_world1";
    let record_2 = "hello_world2";
    let record_3 = "hello_world3";

    let (_, position1) = store.append(record_1.as_bytes().to_vec()).unwrap();
    let (_, position2) = store.append(record_2.as_bytes().to_vec()).unwrap();
    let (_, position3) = store.append(record_3.as_bytes().to_vec()).unwrap();
    assert_eq!(&(store.read(position1 as u64).unwrap()), record_1.as_bytes());
    assert_eq!(&(store.read(position2 as u64).unwrap()), record_2.as_bytes());
    assert_eq!(&(store.read(position3 as u64).unwrap()), record_3.as_bytes());
}

#[test]
fn knows_is_full() {
    let config = ConfigBuilder::new(1024, 20, 0).build();
    let mut store = Store::new(Vec::new(), config);
    let record_1 = "hello_world1";
    let record_2 = "hello_world2";

    let (_, _position1) = store.append(record_1.as_bytes().to_vec()).unwrap();

    let can_store = store.can_store_record(record_2.len());
    assert!(!can_store);
}

#[test]
fn can_store_record_is_strict() {
    let config = ConfigBuilder::new(1024, 20, 0).build();
    let store = Store::new(Vec::new(), config);
    // 0 + 11 + 8 = 19 < 20 holds; 0 + 12 + 8 = 20 < 20 does not.
    assert!(store.can_store_record(11));
    assert!(!store.can_store_record(12));
}

#[test]
fn read_past_end_is_not_found() {
    let config = ConfigBuilder::new(1024, 1024, 0).build();
    let store = Store::new(Vec::new(), config);
    let r = store.read(5);
    assert!(matches!(r, Err(StoreError::StoreEntryNotFound(5))));
}

#[test]
fn append_reports_written_and_position() {
    let config = ConfigBuilder::new(1024, 1024, 0).build();
    let mut store = Store::new(Vec::new(), config);
    let (written, position) = store.append(b"abc".to_vec()).unwrap();
    assert_eq!(written, 11);
    assert_eq!(position, 0);
    let (written2, position2) = store.append(b"defg".to_vec()).unwrap();
    assert_eq!(written2, 12);
    assert_eq!(position2, 11);
    assert_eq!(store.size(), 23);
}
