use mina_logs_service::types::{Entry, Level, Source, Timestamp};

#[test]
fn serialize() {
}

#[test]
fn metadata_keys_stay_distinct() {
    let mut entry = Entry::new(
        Timestamp::new(1_700_000_000, 0),
        Level::Info,
        Source {
            module: "server".to_string(),
            location: "download".to_string(),
        },
        "request served".to_string(),
    );
    assert!(entry.add_metadata("peer".to_string(), "client one".to_string()));
    assert!(entry.add_metadata("bytes".to_string(), "1024".to_string()));
    // a second value under an existing key is refused, the first one stays
    assert!(!entry.add_metadata("peer".to_string(), "client two".to_string()));
    assert_eq!(entry.metadata.len(), 2);
    assert_eq!(entry.metadata[0], ("peer".to_string(), "client one".to_string()));
    assert_eq!(entry.metadata[1], ("bytes".to_string(), "1024".to_string()));
    assert_eq!(entry.level, Level::Info);
}
