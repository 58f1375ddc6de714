use kvs::{KvError, KvErrorKind};

#[test]
fn message_of_key_not_found() {
    assert_eq!(KvError::new(KvErrorKind::KeyNotFound).message(), "Key not found");
}

#[test]
fn message_of_offset_not_found() {
    let e = KvError::new(KvErrorKind::OffsetNotFound { offset: 1234 });
    assert_eq!(e.message(), "value not found in the offset: 1234");
}

#[test]
fn message_of_invariant_violation() {
    let e = KvError::new(KvErrorKind::InvariantViolation { offset: 0 });
    assert_eq!(e.message(), "remove command at the offset: 0");
}

#[test]
fn message_of_corrupt_record() {
    let e = KvError::new(KvErrorKind::CorruptRecord { offset: 9 });
    assert_eq!(e.message(), "corrupt record at the offset: 9");
    let e = KvError::new(KvErrorKind::CorruptRecord { offset: 10 });
    assert_eq!(e.message(), "corrupt record at the offset: 10");
    let e = KvError::new(KvErrorKind::CorruptRecord { offset: 30720 });
    assert_eq!(e.message(), "corrupt record at the offset: 30720");
}

#[test]
fn message_of_encode() {
    assert_eq!(KvError::new(KvErrorKind::Encode).message(), "record cannot be encoded");
}

#[test]
fn message_writes_the_largest_offset() {
    let e = KvError::new(KvErrorKind::OffsetNotFound { offset: usize::MAX });
    assert_eq!(e.message(), format!("value not found in the offset: {}", usize::MAX));
}

#[test]
fn new_keeps_the_kind() {
    let e = KvError::new(KvErrorKind::CorruptRecord { offset: 3 });
    assert_eq!(e.kind, KvErrorKind::CorruptRecord { offset: 3 });
    assert_ne!(e, KvError::new(KvErrorKind::CorruptRecord { offset: 4 }));
}
