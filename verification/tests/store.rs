use kvs::error::KvsError;
use kvs::store::{KvStore, LogUpdate};

fn text(s: &str) -> String {
    s.to_string()
}

fn fresh() -> KvStore {
    KvStore::open(Vec::new()).unwrap()
}

#[test]
fn it_works() {
    assert_eq!(2 + 2, 4);
}

#[test]
fn open_empty_log_has_no_keys() {
    let mut store = fresh();
    assert_eq!(store.len(), 0);
    assert_eq!(store.dead_keys(), 0);
    assert_eq!(store.log_bytes().len(), 0);
    assert_eq!(store.get(text("a")).unwrap(), None);
}

#[test]
fn set_then_get_returns_the_value() {
    let mut store = fresh();
    store.set(text("key"), text("value")).unwrap();
    assert_eq!(store.get(text("key")).unwrap(), Some(text("value")));
    assert_eq!(store.len(), 1);
    assert_eq!(store.dead_keys(), 0);
}

#[test]
fn set_writes_compact_json_records() {
    let mut store = fresh();
    store.set(text("a"), text("1")).unwrap();
    assert_eq!(store.log_bytes(), b"{\"Set\":{\"key\":\"a\",\"value\":\"1\"}}");
    store.set(text("b"), text("2")).unwrap();
    assert_eq!(
        store.log_bytes(),
        b"{\"Set\":{\"key\":\"a\",\"value\":\"1\"}}{\"Set\":{\"key\":\"b\",\"value\":\"2\"}}"
    );
}

#[test]
fn last_write_wins() {
    let mut store = fresh();
    store.set(text("a"), text("1")).unwrap();
    store.set(text("b"), text("2")).unwrap();
    store.set(text("c"), text("3")).unwrap();
    store.set(text("a"), text("4")).unwrap();
    assert_eq!(store.get(text("a")).unwrap(), Some(text("4")));
    assert_eq!(store.len(), 3);
    // one dead key among three live ones: 5 * 1 <= 2 * 3, no compaction
    assert_eq!(store.dead_keys(), 1);
}

#[test]
fn remove_of_an_absent_key_fails_and_leaves_the_log() {
    let mut store = fresh();
    store.set(text("a"), text("1")).unwrap();
    let before = store.log_bytes().to_vec();
    assert!(matches!(store.remove(text("b")), Err(KvsError::KeyNotFound)));
    assert_eq!(store.log_bytes(), &before[..]);
    assert_eq!(store.dead_keys(), 0);
    assert_eq!(store.len(), 1);
}

#[test]
fn remove_on_an_empty_store_fails() {
    let mut store = fresh();
    assert!(matches!(store.remove(text("a")), Err(KvsError::KeyNotFound)));
    assert_eq!(store.log_bytes().len(), 0);
}

#[test]
fn set_remove_get_finds_nothing() {
    let mut store = fresh();
    store.set(text("a"), text("1")).unwrap();
    store.set(text("b"), text("2")).unwrap();
    store.set(text("c"), text("3")).unwrap();
    store.set(text("d"), text("4")).unwrap();
    store.remove(text("a")).unwrap();
    assert_eq!(store.get(text("a")).unwrap(), None);
    assert_eq!(store.len(), 3);
    // a remove during a session counts one dead key: 5 * 1 <= 2 * 3
    assert_eq!(store.dead_keys(), 1);
    assert_eq!(
        store.log_bytes(),
        &b"{\"Set\":{\"key\":\"a\",\"value\":\"1\"}}{\"Set\":{\"key\":\"b\",\"value\":\"2\"}}{\"Set\":{\"key\":\"c\",\"value\":\"3\"}}{\"Set\":{\"key\":\"d\",\"value\":\"4\"}}{\"Remove\":{\"key\":\"a\"}}"[..]
    );
}

#[test]
fn remove_compacts_when_the_ratio_is_exceeded() {
    let mut store = fresh();
    store.set(text("a"), text("1")).unwrap();
    store.set(text("b"), text("2")).unwrap();
    store.set(text("c"), text("3")).unwrap();
    store.remove(text("a")).unwrap();
    // one dead key, two live ones: 5 * 1 > 2 * 2
    assert_eq!(store.dead_keys(), 0);
    assert_eq!(store.get(text("a")).unwrap(), None);
    assert_eq!(
        store.log_bytes(),
        &b"{\"Set\":{\"key\":\"b\",\"value\":\"2\"}}{\"Set\":{\"key\":\"c\",\"value\":\"3\"}}"[..]
    );
}

#[test]
fn concrete_scenario() {
    let mut store = fresh();
    store.set(text("a"), text("1")).unwrap();
    store.set(text("b"), text("2")).unwrap();
    store.set(text("a"), text("3")).unwrap();
    assert_eq!(store.get(text("a")).unwrap(), Some(text("3")));
    assert_eq!(store.get(text("b")).unwrap(), Some(text("2")));
    assert_eq!(store.get(text("c")).unwrap(), None);
    store.remove(text("b")).unwrap();
    assert_eq!(store.get(text("b")).unwrap(), None);
    assert!(matches!(store.remove(text("b")), Err(KvsError::KeyNotFound)));
    assert_eq!(store.get(text("a")).unwrap(), Some(text("3")));
}

#[test]
fn reopening_yields_the_same_values() {
    let mut store = fresh();
    store.set(text("a"), text("1")).unwrap();
    store.set(text("b"), text("2")).unwrap();
    store.set(text("c"), text("3")).unwrap();
    store.set(text("d"), text("4")).unwrap();
    store.set(text("b"), text("5")).unwrap();
    store.remove(text("c")).unwrap();
    let log = store.log_bytes().to_vec();
    let mut again = KvStore::open(log).unwrap();
    for key in ["a", "b", "c", "d", "e"] {
        assert_eq!(again.get(text(key)).unwrap(), store.get(text(key)).unwrap());
    }
    assert_eq!(again.get(text("b")).unwrap(), Some(text("5")));
    assert_eq!(again.get(text("c")).unwrap(), None);
    assert_eq!(again.len(), 3);
}

#[test]
fn replay_counts_a_remove_twice() {
    let mut store = fresh();
    store.set(text("a"), text("1")).unwrap();
    store.set(text("b"), text("2")).unwrap();
    store.set(text("c"), text("3")).unwrap();
    store.set(text("d"), text("4")).unwrap();
    store.set(text("e"), text("5")).unwrap();
    store.set(text("f"), text("6")).unwrap();
    store.remove(text("c")).unwrap();
    assert_eq!(store.dead_keys(), 1);
    let again = KvStore::open(store.log_bytes().to_vec()).unwrap();
    assert_eq!(again.dead_keys(), 2);
    assert_eq!(again.len(), 5);
}

#[test]
fn compaction_waits_until_the_ratio_exceeds_two_fifths() {
    let mut store = fresh();
    for key in ["a", "b", "c", "d", "e"] {
        store.set(text(key), text("0")).unwrap();
    }
    store.set(text("a"), text("1")).unwrap();
    assert_eq!(store.dead_keys(), 1);
    store.set(text("a"), text("2")).unwrap();
    // exactly two fifths: 5 * 2 == 2 * 5, not yet
    assert_eq!(store.dead_keys(), 2);
    let long = store.log_bytes().len();
    store.set(text("b"), text("3")).unwrap();
    // 5 * 3 > 2 * 5: compacted
    assert_eq!(store.dead_keys(), 0);
    assert!(store.log_bytes().len() < long);
    assert_eq!(
        store.log_bytes(),
        &b"{\"Set\":{\"key\":\"a\",\"value\":\"2\"}}{\"Set\":{\"key\":\"b\",\"value\":\"3\"}}{\"Set\":{\"key\":\"c\",\"value\":\"0\"}}{\"Set\":{\"key\":\"d\",\"value\":\"0\"}}{\"Set\":{\"key\":\"e\",\"value\":\"0\"}}"[..]
    );
    assert_eq!(store.get(text("a")).unwrap(), Some(text("2")));
    assert_eq!(store.get(text("b")).unwrap(), Some(text("3")));
    assert_eq!(store.get(text("c")).unwrap(), Some(text("0")));
    assert_eq!(store.get(text("d")).unwrap(), Some(text("0")));
    assert_eq!(store.get(text("e")).unwrap(), Some(text("0")));
    assert_eq!(store.len(), 5);
}

#[test]
fn compaction_keeps_every_value_and_orders_the_keys() {
    let mut store = fresh();
    store.set(text("pear"), text("1")).unwrap();
    store.set(text("apple"), text("2")).unwrap();
    store.set(text("pear"), text("3")).unwrap();
    assert_eq!(store.dead_keys(), 0);
    assert_eq!(
        store.log_bytes(),
        &b"{\"Set\":{\"key\":\"apple\",\"value\":\"2\"}}{\"Set\":{\"key\":\"pear\",\"value\":\"3\"}}"[..]
    );
    assert_eq!(store.get(text("pear")).unwrap(), Some(text("3")));
    assert_eq!(store.get(text("apple")).unwrap(), Some(text("2")));
}

#[test]
fn compaction_is_skipped_when_the_index_is_empty() {
    let mut store = fresh();
    store.set(text("a"), text("1")).unwrap();
    store.remove(text("a")).unwrap();
    assert_eq!(store.len(), 0);
    assert_eq!(store.dead_keys(), 1);
    assert_eq!(
        store.log_bytes(),
        &b"{\"Set\":{\"key\":\"a\",\"value\":\"1\"}}{\"Remove\":{\"key\":\"a\"}}"[..]
    );
}

#[test]
fn compact_does_nothing_below_the_threshold() {
    let mut store = fresh();
    store.set(text("a"), text("1")).unwrap();
    store.set(text("b"), text("2")).unwrap();
    let before = store.log_bytes().to_vec();
    store.compact().unwrap();
    assert_eq!(store.log_bytes(), &before[..]);
}

#[test]
fn forced_rewrite_drops_tombstones() {
    let mut store = KvStore::open(
        b"{\"Set\":{\"key\":\"a\",\"value\":\"1\"}}{\"Remove\":{\"key\":\"zz\"}}".to_vec(),
    )
    .unwrap();
    assert_eq!(store.dead_keys(), 1);
    store._compact().unwrap();
    assert_eq!(store.dead_keys(), 0);
    assert_eq!(store.log_bytes(), &b"{\"Set\":{\"key\":\"a\",\"value\":\"1\"}}"[..]);
    assert_eq!(store.get(text("a")).unwrap(), Some(text("1")));
}

#[test]
fn open_refuses_bytes_that_are_no_log() {
    assert!(matches!(KvStore::open(b"garbage".to_vec()), Err(KvsError::Serde(_))));
    assert!(matches!(
        KvStore::open(b"{\"Set\":{\"key\":\"a\",\"value\":\"1\"}".to_vec()),
        Err(KvsError::Serde(_))
    ));
    assert!(matches!(
        KvStore::open(b"{\"Set\":{\"key\":\"a\",\"value\":\"1\"}}\n".to_vec()),
        Err(KvsError::Serde(_))
    ));
    assert!(matches!(
        KvStore::open(b"{\"Set\":{\"key\":\"a\\q\",\"value\":\"1\"}}".to_vec()),
        Err(KvsError::Serde(_))
    ));
}

#[test]
fn strings_with_quotes_and_escapes_survive() {
    let mut store = fresh();
    let key = text("a \"quoted\" \\ key\n\twith \u{1} control");
    let value = text("snow \u{2603} and }} braces \"}}");
    store.set(key.clone(), value.clone()).unwrap();
    store.set(text("plain"), text("")).unwrap();
    store.set(text(""), text("empty key")).unwrap();
    assert_eq!(store.get(key.clone()).unwrap(), Some(value.clone()));
    assert_eq!(store.get(text("plain")).unwrap(), Some(text("")));
    assert_eq!(store.get(text("")).unwrap(), Some(text("empty key")));
    let mut again = KvStore::open(store.log_bytes().to_vec()).unwrap();
    assert_eq!(again.get(key).unwrap(), Some(value));
    assert_eq!(again.len(), 3);
}

#[test]
fn the_serializer_escapes_what_it_writes() {
    let mut store = fresh();
    store.set(text("a\"b"), text("c\\d")).unwrap();
    assert_eq!(
        store.log_bytes(),
        &b"{\"Set\":{\"key\":\"a\\\"b\",\"value\":\"c\\\\d\"}}"[..]
    );
}

#[test]
fn the_reader_resolves_escapes() {
    let mut store =
        KvStore::open(b"{\"Set\":{\"key\":\"\\u0041\",\"value\":\"x\\ny\"}}".to_vec()).unwrap();
    assert_eq!(store.get(text("A")).unwrap(), Some(text("x\ny")));
}

#[test]
fn flush_hands_out_what_was_appended() {
    let mut store = fresh();
    store.set(text("a"), text("1")).unwrap();
    match store.flush() {
        LogUpdate::Append(bytes) => {
            assert_eq!(bytes, b"{\"Set\":{\"key\":\"a\",\"value\":\"1\"}}".to_vec())
        }
        LogUpdate::Replace(_) => panic!("nothing was rewritten"),
    }
    match store.flush() {
        LogUpdate::Append(bytes) => assert!(bytes.is_empty()),
        LogUpdate::Replace(_) => panic!("nothing was rewritten"),
    }
    store.set(text("b"), text("2")).unwrap();
    store.set(text("c"), text("3")).unwrap();
    match store.flush() {
        LogUpdate::Append(bytes) => assert_eq!(
            bytes,
            b"{\"Set\":{\"key\":\"b\",\"value\":\"2\"}}{\"Set\":{\"key\":\"c\",\"value\":\"3\"}}"
                .to_vec()
        ),
        LogUpdate::Replace(_) => panic!("nothing was rewritten"),
    }
}

#[test]
fn flush_replaces_the_file_after_a_compaction() {
    let mut store = fresh();
    store.set(text("a"), text("1")).unwrap();
    let _ = store.flush();
    store.set(text("a"), text("2")).unwrap();
    assert_eq!(store.dead_keys(), 0);
    store.set(text("b"), text("3")).unwrap();
    match store.flush() {
        LogUpdate::Replace(bytes) => assert_eq!(
            bytes,
            b"{\"Set\":{\"key\":\"a\",\"value\":\"2\"}}{\"Set\":{\"key\":\"b\",\"value\":\"3\"}}"
                .to_vec()
        ),
        LogUpdate::Append(_) => panic!("the log was rewritten"),
    }
    match store.flush() {
        LogUpdate::Append(bytes) => assert!(bytes.is_empty()),
        LogUpdate::Replace(_) => panic!("already replaced"),
    }
}

#[test]
fn open_counts_the_file_as_flushed() {
    let mut store = KvStore::open(b"{\"Set\":{\"key\":\"a\",\"value\":\"1\"}}".to_vec()).unwrap();
    match store.flush() {
        LogUpdate::Append(bytes) => assert!(bytes.is_empty()),
        LogUpdate::Replace(_) => panic!("nothing was rewritten"),
    }
}

#[test]
fn io_errors_have_a_variant() {
    let e = KvsError::Io(std::io::Error::new(std::io::ErrorKind::Other, "disk"));
    assert!(matches!(e, KvsError::Io(_)));
}

#[test]
fn the_index_leads_to_the_start_of_the_latest_record() {
    let mut store = fresh();
    store.set(text("a"), text("1")).unwrap();
    store.set(text("b"), text("2")).unwrap();
    store.set(text("c"), text("3")).unwrap();
    assert_eq!(store.offset_of(&text("a")), Some(0));
    assert_eq!(store.offset_of(&text("b")), Some(31));
    assert_eq!(store.offset_of(&text("c")), Some(62));
    store.set(text("a"), text("4")).unwrap();
    assert_eq!(store.offset_of(&text("a")), Some(93));
    assert_eq!(store.offset_of(&text("zz")), None);
}

#[test]
fn compaction_gives_fresh_offsets() {
    let mut store = fresh();
    store.set(text("b"), text("1")).unwrap();
    store.set(text("a"), text("22")).unwrap();
    store.set(text("b"), text("3")).unwrap();
    assert_eq!(store.dead_keys(), 0);
    assert_eq!(store.offset_of(&text("a")), Some(0));
    assert_eq!(store.offset_of(&text("b")), Some(32));
    store.set(text("c"), text("4")).unwrap();
    assert_eq!(store.offset_of(&text("c")), Some(63));
}
