use kvs::kv::MAX_LOG_FILE_SIZE;
use kvs::{KvError, KvStore};

#[test]
fn serde() {
    let mut store = KvStore::new();

    store.set("key1".to_owned(), "value1".to_owned()).unwrap();
    assert_eq!(store.get("key1".to_owned()).unwrap().unwrap(), "value1");
    store.set("key1".to_owned(), "value2".to_owned()).unwrap();
    assert_eq!(store.get("key1".to_owned()).unwrap().unwrap(), "value2");
}

#[test]
fn dummy() {
    let s = String::from("hh;dd;ll;");

    let sp = s.split(";");

    for spp in sp {
        println!("spp:{}", spp);
    }
}

#[test]
fn set_get_remove_scenario() {
    let mut store = KvStore::new();
    store.set("a".to_owned(), "1".to_owned()).unwrap();
    store.set("a".to_owned(), "2".to_owned()).unwrap();
    assert_eq!(store.get("a".to_owned()).unwrap(), Some("2".to_owned()));

    // remove returns the previous value and unbinds the key
    assert_eq!(store.remove("a".to_owned()).unwrap(), Some("2".to_owned()));
    assert_eq!(store.get("a".to_owned()).unwrap(), None);

    // removing again fails with KeyNotFound
    match store.remove("a".to_owned()) {
        Err(KvError::KeyNotFound { key }) => assert_eq!(key, "a"),
        other => panic!("expected KeyNotFound, got {:?}", other),
    }
}

#[test]
fn remove_missing_key_fails_and_changes_nothing() {
    let mut store = KvStore::new();
    store.set("kept".to_owned(), "v".to_owned()).unwrap();
    let log_before = store.log_bytes().clone();

    match store.remove("absent".to_owned()) {
        Err(KvError::KeyNotFound { key }) => assert_eq!(key, "absent"),
        other => panic!("expected KeyNotFound, got {:?}", other),
    }

    // the log is unchanged and the surviving key still reads back
    assert_eq!(store.log_bytes(), &log_before);
    assert_eq!(store.get("kept".to_owned()).unwrap(), Some("v".to_owned()));
}

#[test]
fn repeated_get_is_idempotent() {
    let mut store = KvStore::new();
    store.set("k".to_owned(), "v".to_owned()).unwrap();
    let first = store.get("k".to_owned()).unwrap();
    let log_after_first = store.log_bytes().clone();
    let second = store.get("k".to_owned()).unwrap();
    assert_eq!(first, second);
    assert_eq!(second, Some("v".to_owned()));
    assert_eq!(store.log_bytes(), &log_after_first);

    let miss_one = store.get("other".to_owned()).unwrap();
    let miss_two = store.get("other".to_owned()).unwrap();
    assert_eq!(miss_one, None);
    assert_eq!(miss_two, None);
    assert_eq!(store.log_bytes(), &log_after_first);
}

#[test]
fn reopen_reproduces_mapping() {
    let mut store = KvStore::new();
    store.set("one".to_owned(), "1".to_owned()).unwrap();
    store.set("two".to_owned(), "2".to_owned()).unwrap();
    store.set("one".to_owned(), "1b".to_owned()).unwrap();
    store.set("gone".to_owned(), "x".to_owned()).unwrap();
    store.remove("gone".to_owned()).unwrap();

    // a new store over the same log bytes replays to the same mapping
    let mut reopened = KvStore::open(store.log_bytes().clone());
    assert_eq!(reopened.get("one".to_owned()).unwrap(), Some("1b".to_owned()));
    assert_eq!(reopened.get("two".to_owned()).unwrap(), Some("2".to_owned()));
    assert_eq!(reopened.get("gone".to_owned()).unwrap(), None);
}

#[test]
fn compaction_preserves_mapping_and_never_grows_log() {
    let mut store = KvStore::new();
    for round in 0..50 {
        for key_id in 0..10 {
            let key = format!("key{}", key_id);
            let value = format!("value-{}-{}", key_id, round);
            store.set(key, value).unwrap();
        }
    }
    let size_before = store.log_bytes().len();
    store.compaction().unwrap();
    let size_after = store.log_bytes().len();
    assert!(size_after <= size_before);
    for key_id in 0..10 {
        let key = format!("key{}", key_id);
        assert_eq!(
            store.get(key).unwrap(),
            Some(format!("value-{}-{}", key_id, 49))
        );
    }
}

#[test]
fn many_writes_trigger_compaction_and_keep_last_values() {
    let mut store = KvStore::new();
    let mut iterations = 0usize;
    for round in 0..1000 {
        for key_id in 0..10 {
            let key = format!("key{}", key_id);
            let value = format!("{}", round);
            store.set(key, value).unwrap();
            iterations += 1;
        }
    }
    assert_eq!(iterations, 10_000);
    for key_id in 0..10 {
        let key = format!("key{}", key_id);
        assert_eq!(store.get(key).unwrap(), Some("999".to_owned()));
    }
    // compaction ran along the way: the log holds 10 live records plus at
    // most one threshold's worth of fresh appends, nowhere near 10 000
    // records
    assert!(store.log_bytes().len() <= MAX_LOG_FILE_SIZE + 1000);
    store.compaction().unwrap();
    // after a final pass only the 10 live records remain
    assert!(store.log_bytes().len() < 1000);
    for key_id in 0..10 {
        let key = format!("key{}", key_id);
        assert_eq!(store.get(key).unwrap(), Some("999".to_owned()));
    }
}

#[test]
fn check_log_size_reports_threshold() {
    let mut store = KvStore::new();
    store.set("k".to_owned(), "v".to_owned()).unwrap();
    assert_eq!(store.check_log_size_too_large().unwrap(), false);
}

#[test]
fn corrupt_log_reported_on_first_use() {
    // a length-complete frame whose payload has an unknown tag
    let mut bad = vec![1u8, 0, 0, 0, 0, 0, 0, 0];
    bad.push(77); // no such tag
    let mut store = KvStore::open(bad);
    match store.get("k".to_owned()) {
        Err(KvError::CorruptLog) => {}
        other => panic!("expected CorruptLog, got {:?}", other),
    }
}

#[test]
fn truncated_trailing_record_is_ignored() {
    let mut writer = KvStore::new();
    writer.set("k".to_owned(), "v".to_owned()).unwrap();
    let mut bytes = writer.log_bytes().clone();
    // a crash-time partial write: a header announcing more bytes than exist
    bytes.extend_from_slice(&[200u8, 0, 0, 0, 0, 0, 0, 0, 1, 2, 3]);
    let mut reopened = KvStore::open(bytes);
    assert_eq!(reopened.get("k".to_owned()).unwrap(), Some("v".to_owned()));
    // the partial tail was dropped as the effective end of valid data
    assert_eq!(reopened.log_bytes(), writer.log_bytes());
}

#[test]
fn reopen_after_compaction_keeps_mapping() {
    let mut store = KvStore::new();
    for i in 0..20 {
        store.set(format!("k{}", i % 4), format!("v{}", i)).unwrap();
    }
    store.remove("k0".to_owned()).unwrap();
    store.compaction().unwrap();
    let mut reopened = KvStore::open(store.log_bytes().clone());
    assert_eq!(reopened.get("k0".to_owned()).unwrap(), None);
    assert_eq!(reopened.get("k1".to_owned()).unwrap(), Some("v17".to_owned()));
    assert_eq!(reopened.get("k2".to_owned()).unwrap(), Some("v18".to_owned()));
    assert_eq!(reopened.get("k3".to_owned()).unwrap(), Some("v19".to_owned()));
}
