use commitlog::config::ConfigBuilder;
use commitlog::index::Index;
use commitlog::index::IndexError;

#[test]
fn index_test() {
    let config = ConfigBuilder::new(1024, 1024, 0).build();

    let mut index = Index::new(Vec::new(), &config);

    index.write(0, 10).unwrap();
    index.write(1, 20).unwrap();
    index.write(2, 30).unwrap();
    index.write(3, 40).unwrap();

    let result = index.read(1).unwrap();

    assert_eq!(result.record_offset, 1);
    assert_eq!(result.position, 20);

    index.close();

    let config = ConfigBuilder::new(1024, 1024, 0).build();

    // rebuild state from the closed file's bytes
    let file_bytes = index.data.clone();
    let mut index = Index::new(file_bytes, &config);

    index.write(4, 50).unwrap();
    index.write(5, 60).unwrap();
    index.write(6, 70).unwrap();
    index.write(7, 80).unwrap();

    let result = index.read(7).unwrap();

    assert_eq!(result.record_offset, 7);
    assert_eq!(result.position, 80);

    // asking for an entry that does not exist returns none
    let result = index.read(8);
    assert!(result.is_none());
}

#[test]
fn write_at_capacity_is_full_and_leaves_size() {
    // room for exactly one entry
    let config = ConfigBuilder::new(12, 1024, 0).build();
    let mut index = Index::new(Vec::new(), &config);
    index.write(0, 10).unwrap();
    assert_eq!(index.size, 12);
    let r = index.write(1, 20);
    assert!(matches!(r, Err(IndexError::IndexFullError)));
    assert_eq!(index.size, 12);
}

#[test]
fn close_trims_to_whole_entries_and_is_idempotent() {
    let config = ConfigBuilder::new(1024, 1024, 0).build();
    let mut index = Index::new(Vec::new(), &config);
    index.write(0, 7).unwrap();
    index.write(1, 9).unwrap();
    assert_eq!(index.data.len(), 1024);
    index.close();
    assert_eq!(index.data.len(), 24);
    assert_eq!(index.data.len() % 12, 0);
    let bytes_after_first = index.data.clone();
    index.close();
    assert_eq!(index.data, bytes_after_first);
    // each entry still names its ordinal
    assert_eq!(index.read(0).unwrap().record_offset, 0);
    assert_eq!(index.read(1).unwrap().record_offset, 1);
    assert_eq!(index.read(1).unwrap().position, 9);
}
