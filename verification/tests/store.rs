use kvs::codec::Record;
use kvs::log::read_value;
use kvs::{KvError, KvErrorKind, KvStore, COMPACTION_THRESHOLD, DEFAULT_LOG_NAME};

fn s(text: &str) -> String {
    text.to_string()
}

fn error(kind: KvErrorKind) -> KvError {
    KvError { kind }
}

fn filled(keys: usize, value_len: usize) -> KvStore {
    let mut kv = KvStore::new();
    let mut round = 0;
    while !kv.needs_compaction() {
        for key in 0..keys {
            let value = format!("{}-{}-{}", key, round, "v".repeat(value_len));
            kv.set(format!("key{}", key), value).unwrap();
        }
        round += 1;
    }
    kv
}

#[test]
fn constants() {
    assert_eq!(DEFAULT_LOG_NAME, "kv.log");
    assert_eq!(COMPACTION_THRESHOLD, 30 * 1024);
}

#[test]
fn new_store_is_empty() {
    let kv = KvStore::new();
    assert_eq!(kv.log().len(), 0);
    assert_eq!(kv.offset_of("x"), None);
    assert!(!kv.needs_compaction());
    let kv = KvStore::default();
    assert_eq!(kv.log().len(), 0);
}

#[test]
fn end_to_end_example() {
    let mut kv = KvStore::open(Vec::new()).unwrap();

    kv.set(s("x"), s("10")).unwrap();
    assert_eq!(kv.log(), &b"{\"Set\":[\"x\",\"10\"]}".to_vec());
    assert_eq!(kv.offset_of("x"), Some(0));
    assert_eq!(kv.offset_of("y"), None);

    kv.set(s("y"), s("20")).unwrap();
    assert_eq!(kv.offset_of("x"), Some(0));
    assert_eq!(kv.offset_of("y"), Some(18));

    kv.remove(s("x")).unwrap();
    assert_eq!(kv.offset_of("x"), None);
    assert_eq!(kv.offset_of("y"), Some(18));
    assert_eq!(
        kv.log(),
        &b"{\"Set\":[\"x\",\"10\"]}{\"Set\":[\"y\",\"20\"]}{\"Remove\":\"x\"}".to_vec()
    );

    assert_eq!(kv.get(s("x")), Ok(None));
    assert_eq!(kv.get(s("y")), Ok(Some(s("20"))));
}

#[test]
fn overwrite_points_the_index_at_the_second_record() {
    let mut kv = KvStore::new();
    kv.set(s("k"), s("v1")).unwrap();
    assert_eq!(kv.offset_of("k"), Some(0));
    let first = kv.log().len();
    kv.set(s("k"), s("v2")).unwrap();
    assert_eq!(kv.get(s("k")), Ok(Some(s("v2"))));
    assert_eq!(kv.offset_of("k"), Some(first));
    assert_eq!(kv.offset_of("k"), Some(18));
    assert_eq!(read_value(kv.log(), 18), Ok(s("v2")));
    assert_eq!(read_value(kv.log(), 0), Ok(s("v1")));
}

#[test]
fn reopen_round_trip() {
    let mut kv = KvStore::new();
    kv.set(s("a"), s("1")).unwrap();
    kv.set(s("b"), s("2")).unwrap();
    kv.remove(s("a")).unwrap();
    let log = kv.log().clone();
    drop(kv);

    let kv = KvStore::open(log).unwrap();
    assert_eq!(kv.get(s("a")), Ok(None));
    assert_eq!(kv.get(s("b")), Ok(Some(s("2"))));
    assert_eq!(kv.offset_of("a"), None);
    assert_eq!(kv.offset_of("b"), Some(17));
}

#[test]
fn reopen_gives_the_same_index() {
    let mut kv = KvStore::new();
    let keys = ["a", "b", "c", "d"];
    for (i, key) in keys.iter().enumerate() {
        kv.set(s(key), format!("{}", i)).unwrap();
    }
    kv.set(s("b"), s("again")).unwrap();
    kv.remove(s("c")).unwrap();
    let reopened = KvStore::open(kv.log().clone()).unwrap();
    for key in keys.iter() {
        assert_eq!(reopened.offset_of(key), kv.offset_of(key));
        assert_eq!(reopened.get(s(key)), kv.get(s(key)));
    }
    assert_eq!(reopened.log(), kv.log());
}

#[test]
fn open_replays_a_set_after_a_remove_at_its_own_offset() {
    let log = b"{\"Set\":[\"a\",\"1\"]}{\"Remove\":\"a\"}{\"Set\":[\"b\",\"2\"]}".to_vec();
    let kv = KvStore::open(log).unwrap();
    assert_eq!(kv.offset_of("a"), None);
    assert_eq!(kv.offset_of("b"), Some(31));
    assert_eq!(kv.get(s("b")), Ok(Some(s("2"))));
    assert_eq!(kv.get(s("a")), Ok(None));
}

#[test]
fn open_a_corrupt_log_fails_with_the_offset() {
    let r = KvStore::open(b"garbage".to_vec());
    assert_eq!(r.err(), Some(error(KvErrorKind::CorruptRecord { offset: 0 })));
    let r = KvStore::open(b"{\"Set\":[\"a\",\"1\"]}{\"Remove\":\"a\"".to_vec());
    assert_eq!(r.err(), Some(error(KvErrorKind::CorruptRecord { offset: 17 })));
    let r = KvStore::open(b"{\"Set\":[\"a\",\"1\"]}\n".to_vec());
    assert_eq!(r.err(), Some(error(KvErrorKind::CorruptRecord { offset: 17 })));
}

#[test]
fn remove_missing_key_fails_and_changes_nothing() {
    let mut kv = KvStore::new();
    assert_eq!(kv.remove(s("k")), Err(error(KvErrorKind::KeyNotFound)));
    assert_eq!(kv.log().len(), 0);

    kv.set(s("a"), s("1")).unwrap();
    let log = kv.log().clone();
    assert_eq!(kv.remove(s("k")), Err(error(KvErrorKind::KeyNotFound)));
    assert_eq!(kv.log(), &log);
    assert_eq!(kv.offset_of("a"), Some(0));
    assert_eq!(kv.offset_of("k"), None);
    assert_eq!(kv.get(s("a")), Ok(Some(s("1"))));
}

#[test]
fn remove_twice_fails_the_second_time() {
    let mut kv = KvStore::new();
    kv.set(s("k"), s("v")).unwrap();
    assert_eq!(kv.remove(s("k")), Ok(()));
    let log = kv.log().clone();
    assert_eq!(kv.remove(s("k")), Err(error(KvErrorKind::KeyNotFound)));
    assert_eq!(kv.log(), &log);
    assert_eq!(kv.get(s("k")), Ok(None));
}

#[test]
fn remove_appends_a_remove_record() {
    let mut kv = KvStore::new();
    kv.set(s("k"), s("v")).unwrap();
    kv.remove(s("k")).unwrap();
    assert_eq!(kv.log(), &b"{\"Set\":[\"k\",\"v\"]}{\"Remove\":\"k\"}".to_vec());
}

#[test]
fn get_twice_gives_the_same_answer() {
    let mut kv = KvStore::new();
    kv.set(s("k"), s("v")).unwrap();
    let first = kv.get(s("k"));
    let second = kv.get(s("k"));
    assert_eq!(first, Ok(Some(s("v"))));
    assert_eq!(first, second);
    let first = kv.get(s("none"));
    let second = kv.get(s("none"));
    assert_eq!(first, Ok(None));
    assert_eq!(first, second);
    assert_eq!(kv.log().len(), 17);
}

#[test]
fn get_after_a_history_of_writes() {
    let mut kv = KvStore::new();
    kv.set(s("a"), s("1")).unwrap();
    kv.set(s("b"), s("2")).unwrap();
    kv.set(s("a"), s("3")).unwrap();
    kv.remove(s("b")).unwrap();
    kv.set(s("c"), s("4")).unwrap();
    kv.remove(s("c")).unwrap();
    kv.set(s("c"), s("5")).unwrap();
    assert!(kv.remove(s("d")).is_err());
    assert_eq!(kv.get(s("a")), Ok(Some(s("3"))));
    assert_eq!(kv.get(s("b")), Ok(None));
    assert_eq!(kv.get(s("c")), Ok(Some(s("5"))));
    assert_eq!(kv.get(s("d")), Ok(None));
}

#[test]
fn keys_and_values_that_look_like_frames() {
    let mut kv = KvStore::new();
    let odd = ["\"]}", "{\"Remove\":\"k\"}", "a\\", "\\\"", ",", "", "\n", "é\u{0}"];
    for (i, text) in odd.iter().enumerate() {
        kv.set(s(text), format!("{}{}", text, i)).unwrap();
        kv.set(format!("key{}", i), s(text)).unwrap();
    }
    let reopened = KvStore::open(kv.log().clone()).unwrap();
    for (i, text) in odd.iter().enumerate() {
        assert_eq!(kv.get(s(text)), Ok(Some(format!("{}{}", text, i))));
        assert_eq!(kv.get(format!("key{}", i)), Ok(Some(s(text))));
        assert_eq!(reopened.get(s(text)), Ok(Some(format!("{}{}", text, i))));
        assert_eq!(reopened.get(format!("key{}", i)), Ok(Some(s(text))));
    }
    for text in odd.iter() {
        kv.remove(s(text)).unwrap();
        assert_eq!(kv.get(s(text)), Ok(None));
    }
}

#[test]
fn apply_puts_and_takes_keys() {
    let mut kv = KvStore::new();
    kv.apply(Record::Put { key: s("k"), value: s("ignored") }, 5);
    assert_eq!(kv.offset_of("k"), Some(5));
    kv.apply(Record::Put { key: s("k"), value: s("ignored") }, 9);
    assert_eq!(kv.offset_of("k"), Some(9));
    kv.apply(Record::Remove { key: s("k") }, 20);
    assert_eq!(kv.offset_of("k"), None);
    kv.apply(Record::Remove { key: s("k") }, 30);
    assert_eq!(kv.offset_of("k"), None);
    assert_eq!(kv.log().len(), 0);
}

#[test]
fn get_fails_fast_where_the_index_points_at_no_set_record() {
    let mut kv = KvStore::new();
    kv.set(s("a"), s("1")).unwrap();
    kv.remove(s("a")).unwrap();

    kv.apply(Record::Put { key: s("past"), value: s("") }, 31);
    assert_eq!(kv.get(s("past")), Err(error(KvErrorKind::OffsetNotFound { offset: 31 })));

    kv.apply(Record::Put { key: s("inside"), value: s("") }, 3);
    assert_eq!(kv.get(s("inside")), Err(error(KvErrorKind::CorruptRecord { offset: 3 })));

    kv.apply(Record::Put { key: s("removed"), value: s("") }, 17);
    assert_eq!(kv.get(s("removed")), Err(error(KvErrorKind::InvariantViolation { offset: 17 })));
}

#[test]
fn fill_index_replays_the_log_on_the_index() {
    let mut kv = KvStore::new();
    kv.set(s("a"), s("1")).unwrap();
    kv.set(s("b"), s("2")).unwrap();
    kv.apply(Record::Remove { key: s("a") }, 0);
    kv.apply(Record::Put { key: s("stays"), value: s("") }, 7);
    assert_eq!(kv.fill_index(), Ok(()));
    assert_eq!(kv.offset_of("a"), Some(0));
    assert_eq!(kv.offset_of("b"), Some(17));
    assert_eq!(kv.offset_of("stays"), Some(7));
}

#[test]
fn compact_keeps_one_set_record_for_each_key() {
    let mut kv = KvStore::new();
    kv.set(s("a"), s("1")).unwrap();
    kv.set(s("b"), s("2")).unwrap();
    kv.set(s("a"), s("3")).unwrap();
    kv.set(s("c"), s("4")).unwrap();
    kv.remove(s("b")).unwrap();
    assert_eq!(kv.compact(), Ok(()));
    assert_eq!(kv.log(), &b"{\"Set\":[\"a\",\"3\"]}{\"Set\":[\"c\",\"4\"]}".to_vec());
    assert_eq!(kv.offset_of("a"), Some(0));
    assert_eq!(kv.offset_of("b"), None);
    assert_eq!(kv.offset_of("c"), Some(17));
    assert_eq!(kv.get(s("a")), Ok(Some(s("3"))));
    assert_eq!(kv.get(s("b")), Ok(None));
    assert_eq!(kv.get(s("c")), Ok(Some(s("4"))));
}

#[test]
fn compact_an_empty_store() {
    let mut kv = KvStore::new();
    assert_eq!(kv.compact(), Ok(()));
    assert_eq!(kv.log().len(), 0);
    kv.set(s("a"), s("1")).unwrap();
    kv.remove(s("a")).unwrap();
    assert_eq!(kv.compact(), Ok(()));
    assert_eq!(kv.log().len(), 0);
    assert_eq!(kv.get(s("a")), Ok(None));
}

#[test]
fn compact_twice_changes_nothing_more() {
    let mut kv = KvStore::new();
    kv.set(s("a"), s("1")).unwrap();
    kv.set(s("a"), s("2")).unwrap();
    kv.set(s("b"), s("3")).unwrap();
    kv.compact().unwrap();
    let log = kv.log().clone();
    kv.compact().unwrap();
    assert_eq!(kv.log(), &log);
    assert_eq!(kv.offset_of("a"), Some(0));
    assert_eq!(kv.offset_of("b"), Some(17));
}

#[test]
fn compact_fails_for_a_key_past_the_end_of_the_log() {
    let mut kv = KvStore::new();
    kv.apply(Record::Put { key: s("k"), value: s("") }, 5);
    assert_eq!(kv.get(s("k")), Err(error(KvErrorKind::OffsetNotFound { offset: 5 })));
    assert_eq!(kv.compact(), Err(error(KvErrorKind::OffsetNotFound { offset: 5 })));
    assert_eq!(kv.offset_of("k"), Some(5));
    assert_eq!(kv.log().len(), 0);
    assert_eq!(kv.get(s("k")), Err(error(KvErrorKind::OffsetNotFound { offset: 5 })));
}

#[test]
fn compact_fails_for_a_key_at_bytes_that_are_no_record() {
    let mut kv = KvStore::new();
    kv.set(s("a"), s("1")).unwrap();
    kv.apply(Record::Put { key: s("b"), value: s("") }, 4);
    let log = kv.log().clone();
    assert_eq!(kv.compact(), Err(error(KvErrorKind::CorruptRecord { offset: 4 })));
    assert_eq!(kv.log(), &log);
    assert_eq!(kv.offset_of("a"), Some(0));
    assert_eq!(kv.offset_of("b"), Some(4));
    assert_eq!(kv.get(s("a")), Ok(Some(s("1"))));
}

#[test]
fn compact_fails_for_a_key_at_a_remove_record() {
    let mut kv = KvStore::new();
    kv.set(s("a"), s("1")).unwrap();
    kv.remove(s("a")).unwrap();
    kv.set(s("c"), s("3")).unwrap();
    kv.apply(Record::Put { key: s("b"), value: s("") }, 17);
    let log = kv.log().clone();
    assert_eq!(kv.compact(), Err(error(KvErrorKind::InvariantViolation { offset: 17 })));
    assert_eq!(kv.log(), &log);
    assert_eq!(kv.offset_of("b"), Some(17));
    assert_eq!(kv.offset_of("c"), Some(31));
    assert_eq!(kv.get(s("c")), Ok(Some(s("3"))));
}

#[test]
fn compact_takes_the_record_of_another_key_as_it_stands() {
    let mut kv = KvStore::new();
    kv.set(s("a"), s("1")).unwrap();
    kv.apply(Record::Put { key: s("b"), value: s("") }, 0);
    assert_eq!(kv.get(s("b")), Ok(Some(s("1"))));
    assert_eq!(kv.compact(), Ok(()));
    assert_eq!(kv.get(s("a")), Ok(Some(s("1"))));
    assert_eq!(kv.get(s("b")), Ok(Some(s("1"))));
    assert_eq!(kv.offset_of("a"), Some(0));
    assert_eq!(kv.offset_of("b"), Some(17));
    assert_eq!(kv.log(), &b"{\"Set\":[\"a\",\"1\"]}{\"Set\":[\"a\",\"1\"]}".to_vec());
}

#[test]
fn set_fails_where_compaction_fails() {
    let mut kv = filled(3, 200);
    kv.apply(Record::Put { key: s("lost"), value: s("") }, 1_000_000);
    let log = kv.log().clone();
    assert_eq!(
        kv.set(s("k"), s("v")),
        Err(error(KvErrorKind::OffsetNotFound { offset: 1_000_000 }))
    );
    assert_eq!(kv.log(), &log);
    assert_eq!(kv.offset_of("k"), None);
    assert_eq!(kv.offset_of("lost"), Some(1_000_000));
}

#[test]
fn compact_writes_the_keys_in_the_order_in_which_they_first_came() {
    let mut kv = KvStore::new();
    kv.set(s("a"), s("1")).unwrap();
    kv.set(s("b"), s("2")).unwrap();
    kv.set(s("c"), s("3")).unwrap();
    kv.remove(s("a")).unwrap();
    kv.set(s("b"), s("4")).unwrap();
    kv.set(s("a"), s("5")).unwrap();
    kv.compact().unwrap();
    assert_eq!(
        kv.log(),
        &b"{\"Set\":[\"a\",\"5\"]}{\"Set\":[\"b\",\"4\"]}{\"Set\":[\"c\",\"3\"]}".to_vec()
    );
    assert_eq!(kv.offset_of("a"), Some(0));
    assert_eq!(kv.offset_of("b"), Some(17));
    assert_eq!(kv.offset_of("c"), Some(34));
    let reopened = KvStore::open(kv.log().clone()).unwrap();
    assert_eq!(reopened.offset_of("c"), Some(34));
    assert_eq!(reopened.get(s("a")), Ok(Some(s("5"))));
    kv.remove(s("b")).unwrap();
    kv.compact().unwrap();
    assert_eq!(kv.log(), &b"{\"Set\":[\"a\",\"5\"]}{\"Set\":[\"c\",\"3\"]}".to_vec());
}

#[test]
fn set_compacts_a_log_over_the_threshold() {
    let mut kv = filled(10, 100);
    assert!(kv.needs_compaction());
    let before = kv.log().len();
    assert!(before > COMPACTION_THRESHOLD);
    let mut expected = Vec::new();
    for key in 0..10 {
        let name = format!("key{}", key);
        expected.push((name.clone(), kv.get(name).unwrap()));
    }

    kv.set(s("fresh"), s("value")).unwrap();

    let after = kv.log().len();
    assert!(after <= before);
    assert!(!kv.needs_compaction());
    for (name, value) in expected.iter() {
        assert!(value.is_some());
        assert_eq!(&kv.get(name.clone()).unwrap(), value);
    }
    assert_eq!(kv.get(s("fresh")), Ok(Some(s("value"))));

    // One record for each live key, and the new one at the end.
    let mut size = 0;
    for (name, value) in expected.iter() {
        size += 15 + name.len() + value.clone().unwrap().len();
    }
    assert_eq!(kv.offset_of("fresh"), Some(size));
    assert_eq!(after, size + 15 + "fresh".len() + "value".len());
}

#[test]
fn compaction_points_the_index_at_the_new_offsets() {
    let mut kv = filled(7, 300);
    kv.remove(s("key3")).unwrap();
    kv.set(s("last"), s("one")).unwrap();
    for key in 0..7 {
        let name = format!("key{}", key);
        match kv.offset_of(&name) {
            Some(offset) => {
                assert_ne!(key, 3);
                assert_eq!(
                    Ok(read_value(kv.log(), offset).unwrap()),
                    kv.get(name).map(|v| v.unwrap())
                );
            }
            None => assert_eq!(key, 3),
        }
    }
    let reopened = KvStore::open(kv.log().clone()).unwrap();
    for key in 0..7 {
        let name = format!("key{}", key);
        assert_eq!(reopened.offset_of(&name), kv.offset_of(&name));
        assert_eq!(reopened.get(name.clone()), kv.get(name));
    }
    assert_eq!(reopened.get(s("last")), Ok(Some(s("one"))));
}

#[test]
fn set_does_not_compact_a_log_at_the_threshold() {
    let mut kv = KvStore::new();
    kv.set(s("k"), "v".repeat(COMPACTION_THRESHOLD - 16)).unwrap();
    assert_eq!(kv.log().len(), COMPACTION_THRESHOLD);
    assert!(!kv.needs_compaction());
    kv.set(s("k"), s("w")).unwrap();
    assert_eq!(kv.log().len(), COMPACTION_THRESHOLD + 17);
    assert_eq!(kv.offset_of("k"), Some(COMPACTION_THRESHOLD));
    assert!(kv.needs_compaction());
    kv.set(s("j"), s("x")).unwrap();
    assert_eq!(kv.log(), &b"{\"Set\":[\"k\",\"w\"]}{\"Set\":[\"j\",\"x\"]}".to_vec());
    assert_eq!(kv.offset_of("k"), Some(0));
    assert_eq!(kv.offset_of("j"), Some(17));
    assert_eq!(kv.get(s("k")), Ok(Some(s("w"))));
    assert!(!kv.needs_compaction());
}
