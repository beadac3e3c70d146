use kvs_broadcast::kvs::error::ErrorKind;
use kvs_broadcast::kvs::store::KvStore;

fn text(s: &str) -> String {
    s.to_string()
}

#[test]
fn set_overwrite_reopen_remove() {
    let mut store = KvStore::open(Vec::new()).unwrap();
    store.set(text("a"), text("1")).unwrap();
    store.set(text("a"), text("2")).unwrap();
    assert_eq!(store.get(text("a")).unwrap(), Some(text("2")));

    let bytes = store.log().clone();
    let mut reopened = KvStore::open(bytes).unwrap();
    assert_eq!(reopened.get(text("a")).unwrap(), Some(text("2")));
    reopened.remove(text("a")).unwrap();
    assert_eq!(reopened.get(text("a")).unwrap(), None);
}

#[test]
fn log_holds_json_objects() {
    let mut store = KvStore::open(Vec::new()).unwrap();
    store.set(text("a"), text("1")).unwrap();
    assert_eq!(store.log().as_slice(), br#"{"key":"a","value":"1"}"#.as_slice());
    store.set(text("q\"uote"), text("line\nbreak")).unwrap();
    assert_eq!(store.get(text("q\"uote")).unwrap(), Some(text("line\nbreak")));
}

#[test]
fn remove_of_absent_key_is_key_not_found_and_still_writes() {
    let mut store = KvStore::open(Vec::new()).unwrap();
    let before = store.log().len();
    let outcome = store.remove(text("ghost"));
    assert!(matches!(outcome, Err(ErrorKind::KeyNotFound)));
    assert!(store.log().len() > before);
    assert_eq!(store.to_compact(), 1);
    assert_eq!(store.get(text("ghost")).unwrap(), None);
}

#[test]
fn open_rejects_a_truncated_tail() {
    let mut store = KvStore::open(Vec::new()).unwrap();
    store.set(text("a"), text("1")).unwrap();
    store.set(text("b"), text("2")).unwrap();
    let mut bytes = store.log().clone();
    bytes.truncate(bytes.len() - 3);
    assert!(matches!(KvStore::open(bytes), Err(ErrorKind::Serialization(_))));
}

#[test]
fn two_thousand_keys_compact_and_stay_readable() {
    let mut store = KvStore::open(Vec::new()).unwrap();
    let mut compactions = 0;
    for round in 0..2 {
        for i in 0..2000u32 {
            let value = format!("{:04}", (i + round) % 10000);
            store.set(format!("key{}", i), value).unwrap();
            if store.was_compacted() {
                compactions += 1;
                let live: usize = 2000usize.min(store.len());
                assert!(store.log().len() <= live * 40);
            }
        }
    }
    assert!(compactions >= 1);
    assert_eq!(store.len(), 2000);
    for i in 0..2000u32 {
        let expected = format!("{:04}", (i + 1) % 10000);
        assert_eq!(store.get(format!("key{}", i)).unwrap(), Some(expected));
    }
}

#[test]
fn compaction_keeps_the_live_records_and_nothing_else() {
    let mut store = KvStore::open(Vec::new()).unwrap();
    store.set(text("a"), text("1")).unwrap();
    store.set(text("b"), text("2")).unwrap();
    store.set(text("a"), text("3")).unwrap();
    let _ = store.remove(text("b"));
    assert_eq!(store.to_compact(), 2);
    store.compact();
    assert!(store.was_compacted());
    assert_eq!(store.to_compact(), 0);
    assert_eq!(store.log().as_slice(), br#"{"key":"a","value":"3"}"#.as_slice());
    assert_eq!(store.get(text("a")).unwrap(), Some(text("3")));
    assert_eq!(store.get(text("b")).unwrap(), None);

    let once = store.log().clone();
    store.compact();
    assert_eq!(store.log(), &once);
    assert_eq!(store.get(text("a")).unwrap(), Some(text("3")));
}

#[test]
fn the_store_agrees_with_a_map() {
    let mut store = KvStore::open(Vec::new()).unwrap();
    let mut model = std::collections::HashMap::new();
    let mut seed: u32 = 12345;
    for step in 0..3000 {
        seed = seed.wrapping_mul(1664525).wrapping_add(1013904223);
        let key = format!("k{}", (seed >> 8) % 17);
        match (seed >> 3) % 3 {
            0 => {
                let value = format!("v{}", step);
                store.set(key.clone(), value.clone()).unwrap();
                model.insert(key.clone(), value);
            }
            1 => {
                let outcome = store.remove(key.clone());
                match model.remove(&key) {
                    Some(_) => assert!(outcome.is_ok()),
                    None => assert!(matches!(outcome, Err(ErrorKind::KeyNotFound))),
                }
            }
            _ => {}
        }
        assert_eq!(store.get(key.clone()).unwrap(), model.get(&key).cloned());
        if step % 500 == 499 {
            store = KvStore::open(store.log().clone()).unwrap();
            assert_eq!(store.len(), model.len());
        }
    }
    for (key, value) in &model {
        assert_eq!(store.get(key.clone()).unwrap().as_ref(), Some(value));
    }
}

#[test]
fn open_compacts_a_log_with_many_dead_records() {
    let mut bytes = Vec::new();
    for i in 0..1100 {
        bytes.extend_from_slice(format!("{{\"key\":\"k\",\"value\":\"{}\"}}", i).as_bytes());
    }
    let store = KvStore::open(bytes).unwrap();
    assert!(store.was_compacted());
    assert_eq!(store.to_compact(), 0);
    assert_eq!(store.log().as_slice(), br#"{"key":"k","value":"1099"}"#.as_slice());

    let mut bytes = Vec::new();
    for i in 0..1025 {
        bytes.extend_from_slice(format!("{{\"key\":\"k\",\"value\":\"{}\"}}", i).as_bytes());
    }
    let store = KvStore::open(bytes.clone()).unwrap();
    assert!(!store.was_compacted());
    assert_eq!(store.to_compact(), 1024);
    assert_eq!(store.log(), &bytes);
}

#[test]
fn open_reads_escapes_and_spaces_before_strings() {
    let store = KvStore::open(br#"{ "key": "aA","value": "x\ty"}"#.to_vec()).unwrap();
    assert_eq!(store.get(text("aA")).unwrap(), Some(text("x\ty")));
}

#[test]
fn open_rejects_what_is_no_record() {
    for bad in [
        &b"[]"[..],
        br#"{"value":"1","key":"a"}"#,
        br#"{"key":"a"}"#,
        br#"{"key":"a","value":1}"#,
        br#"{"key":"a","value":"1"} "#,
        br#"{"key":"a","value":"1""#,
    ] {
        assert!(matches!(KvStore::open(bad.to_vec()), Err(ErrorKind::Serialization(_))), "{:?}", bad);
    }
}

#[test]
fn tombstones_in_a_log_remove_keys() {
    let bytes = br#"{"key":"a","value":"1"}{"key":"b","value":"2"}{"key":"a","value":"__tombstone__"}"#;
    let store = KvStore::open(bytes.to_vec()).unwrap();
    assert_eq!(store.get(text("a")).unwrap(), None);
    assert_eq!(store.get(text("b")).unwrap(), Some(text("2")));
    assert_eq!(store.len(), 1);
    assert_eq!(store.to_compact(), 1);
}

#[test]
fn compaction_runs_when_the_count_passes_the_threshold() {
    let mut store = KvStore::open(Vec::new()).unwrap();
    store.set(text("k"), text("0")).unwrap();
    assert_eq!(store.to_compact(), 0);
    for i in 1..=1024u32 {
        store.set(text("k"), i.to_string()).unwrap();
        assert!(!store.was_compacted());
        assert_eq!(store.to_compact(), i as u64);
    }
    store.set(text("k"), text("last")).unwrap();
    assert!(store.was_compacted());
    assert_eq!(store.to_compact(), 0);
    assert_eq!(store.log().as_slice(), br#"{"key":"k","value":"last"}"#.as_slice());
    store.set(text("other"), text("1")).unwrap();
    assert!(!store.was_compacted());
    assert_eq!(store.to_compact(), 0);
}

#[test]
fn failed_removes_count_and_the_next_change_compacts() {
    let mut store = KvStore::open(Vec::new()).unwrap();
    for _ in 0..1030 {
        assert!(matches!(store.remove(text("absent")), Err(ErrorKind::KeyNotFound)));
        assert!(!store.was_compacted());
    }
    assert_eq!(store.to_compact(), 1030);
    store.set(text("a"), text("1")).unwrap();
    assert!(store.was_compacted());
    assert_eq!(store.log().as_slice(), br#"{"key":"a","value":"1"}"#.as_slice());
}

#[test]
fn the_log_grows_by_the_record_of_each_change() {
    let mut store = KvStore::open(Vec::new()).unwrap();
    store.set(text("a"), text("1")).unwrap();
    let first = store.log().len();
    store.set(text("b"), text("22")).unwrap();
    assert_eq!(&store.log()[first..], br#"{"key":"b","value":"22"}"#);
    let second = store.log().len();
    store.remove(text("a")).unwrap();
    assert_eq!(&store.log()[second..], br#"{"key":"a","value":"__tombstone__"}"#);
    assert_eq!(store.len(), 1);
}
