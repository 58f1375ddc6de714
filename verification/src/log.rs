//! The command log as a sequence of bytes: what it holds, how it is read and how it grows.

use vstd::prelude::*;
use crate::codec::{
    decode, decode_at, encode, encoding, lemma_decode_bounds, lemma_decode_extends, Decoded,
    Record, RecordView,
};
use crate::error::{KvError, KvErrorKind};

verus! {

/// A record in a log, with the offsets at which it begins and ends.
pub struct Entry {
    pub record: RecordView,
    pub offset: int,
    pub next: int,
}

/// What reading a log record by record finds.
pub struct Scan {
    /// The records read, in log order.
    pub entries: Seq<Entry>,
    /// The offset at which the bytes are no record, if reading stopped before the end.
    pub corrupt: Option<int>,
}

/// Reads `log` record by record from `offset` on.
pub open spec fn scan_from(log: Seq<u8>, offset: int) -> Scan
    decreases log.len() - offset,
{
    match decode_at(log, offset) {
        Decoded::End => Scan { entries: Seq::empty(), corrupt: None },
        Decoded::Corrupt => Scan { entries: Seq::empty(), corrupt: Some(offset) },
        Decoded::Record { record, next } => {
            proof {
                lemma_decode_bounds(log, offset);
            }
            let rest = scan_from(log, next);
            Scan {
                entries: seq![Entry { record, offset, next }] + rest.entries,
                corrupt: rest.corrupt,
            }
        },
    }
}

/// Reads the whole of `log`.
pub open spec fn scan(log: Seq<u8>) -> Scan {
    scan_from(log, 0)
}

/// The index after one more record, which begins at `offset`: a `Set` puts its key at that
/// offset, a `Remove` takes its key out.
pub open spec fn apply(index: Map<Seq<char>, int>, record: RecordView, offset: int) -> Map<
    Seq<char>,
    int,
> {
    match record {
        RecordView::Put { key, .. } => index.insert(key, offset),
        RecordView::Remove { key } => index.remove(key),
    }
}

/// The index after the records of `entries`, applied in order to `index`.
pub open spec fn replay(index: Map<Seq<char>, int>, entries: Seq<Entry>) -> Map<Seq<char>, int>
    decreases entries.len(),
{
    if entries.len() == 0 {
        index
    } else {
        apply(replay(index, entries.drop_last()), entries.last().record, entries.last().offset)
    }
}

/// The index of a log that holds `entries`: each key whose latest record is a `Set`, at the
/// offset of that record.
pub open spec fn index_of(entries: Seq<Entry>) -> Map<Seq<char>, int> {
    replay(Map::empty(), entries)
}

/// The value that `record`, read at `offset`, gives its key: that of a `Set` record, and
/// `InvariantViolation` for a `Remove` record.
pub open spec fn value_in(record: RecordView, offset: int) -> Result<Seq<char>, KvError> {
    match record {
        RecordView::Put { value, .. } => Ok(value),
        RecordView::Remove { .. } => Err(
            KvError::of(KvErrorKind::InvariantViolation { offset: offset as usize }),
        ),
    }
}

/// The value that the record at `offset` gives its key.
pub open spec fn value_at(log: Seq<u8>, offset: int) -> Result<Seq<char>, KvError> {
    match decode_at(log, offset) {
        Decoded::End => Err(KvError::of(KvErrorKind::OffsetNotFound { offset: offset as usize })),
        Decoded::Corrupt => Err(
            KvError::of(KvErrorKind::CorruptRecord { offset: offset as usize }),
        ),
        Decoded::Record { record, .. } => value_in(record, offset),
    }
}

/// Appends `record` to the log and returns the offset at which it begins: the length of the
/// log before.
///
/// Fails with `Encode`, and leaves the log as it is, where the record cannot be encoded.
pub fn append(log: &mut Vec<u8>, record: &Record) -> (r: Result<usize, KvError>)
    ensures
        match encoding(record@) {
            Some(bytes) => r matches Ok(offset) && offset == old(log)@.len() && final(log)@
                == old(log)@ + bytes,
            None => r == Err::<usize, KvError>(KvError::of(KvErrorKind::Encode)) && final(log)@
                == old(log)@,
        },
{
    let mut bytes = encode(record)?;
    let offset = log.len();
    log.append(&mut bytes);
    Ok(offset)
}

/// Reads the record that begins at `offset`.
///
/// Fails with `OffsetNotFound` where `offset` is at or past the end of the log, and with
/// `CorruptRecord` where the bytes there are no record.
pub fn read_at(log: &[u8], offset: usize) -> (r: Result<Record, KvError>)
    ensures
        match decode_at(log@, offset as int) {
            Decoded::End => r == Err::<Record, KvError>(
                KvError::of(KvErrorKind::OffsetNotFound { offset }),
            ),
            Decoded::Corrupt => r == Err::<Record, KvError>(
                KvError::of(KvErrorKind::CorruptRecord { offset }),
            ),
            Decoded::Record { record, .. } => r matches Ok(x) && x@ == record,
        },
{
    match decode(log, offset) {
        Ok(Some((record, _))) => Ok(record),
        Ok(None) => Err(KvError::new(KvErrorKind::OffsetNotFound { offset })),
        Err(e) => Err(e),
    }
}

/// The value of a `Set` record that was read at `offset`.
///
/// Fails with `InvariantViolation` where the record is a `Remove`.
pub fn value_of(record: Record, offset: usize) -> (r: Result<String, KvError>)
    ensures
        match value_in(record@, offset as int) {
            Ok(value) => r matches Ok(x) && x@ == value,
            Err(e) => r == Err::<String, KvError>(e),
        },
{
    match record {
        Record::Put { key: _, value } => Ok(value),
        Record::Remove { key: _ } => Err(KvError::new(KvErrorKind::InvariantViolation { offset })),
    }
}

/// Reads the value of the `Set` record that begins at `offset`.
///
/// Fails as `read_at` does, and with `InvariantViolation` where the record is a `Remove`.
pub fn read_value(log: &[u8], offset: usize) -> (r: Result<String, KvError>)
    ensures
        match value_at(log@, offset as int) {
            Ok(value) => r matches Ok(x) && x@ == value,
            Err(e) => r == Err::<String, KvError>(e),
        },
{
    value_of(read_at(log, offset)?, offset)
}

/// Every entry of a scan is the record that stands at its offset, and lies inside the log at
/// or past the offset where the scan began.
pub proof fn lemma_scan_entry(log: Seq<u8>, offset: int, i: int)
    requires
        0 <= i < scan_from(log, offset).entries.len(),
    ensures
        decode_at(log, scan_from(log, offset).entries[i].offset) == (Decoded::Record {
            record: scan_from(log, offset).entries[i].record,
            next: scan_from(log, offset).entries[i].next,
        }),
        0 <= offset <= scan_from(log, offset).entries[i].offset,
        scan_from(log, offset).entries[i].offset < scan_from(log, offset).entries[i].next,
        scan_from(log, offset).entries[i].next <= log.len(),
    decreases log.len() - offset,
{
    lemma_decode_bounds(log, offset);
    if i > 0 {
        let next = decode_at(log, offset)->next;
        lemma_scan_entry(log, next, i - 1);
    }
}

/// The entries of a scan follow one another: each begins where the one before it ends.
pub proof fn lemma_scan_ordered(log: Seq<u8>, offset: int, i: int, j: int)
    requires
        0 <= i < j < scan_from(log, offset).entries.len(),
    ensures
        scan_from(log, offset).entries[i].next <= scan_from(log, offset).entries[j].offset,
    decreases log.len() - offset,
{
    lemma_decode_bounds(log, offset);
    let next = decode_at(log, offset)->next;
    if i == 0 {
        lemma_scan_entry(log, next, j - 1);
    } else {
        lemma_scan_ordered(log, next, i - 1, j - 1);
    }
}

/// A log that reads to its end, continued by one more record, reads to its end, and the
/// record is its last entry.
pub proof fn lemma_scan_append(log: Seq<u8>, offset: int, bytes: Seq<u8>, record: RecordView)
    requires
        0 <= offset <= log.len(),
        scan_from(log, offset).corrupt is None,
        decode_at(log + bytes, log.len() as int) == (Decoded::Record {
            record,
            next: (log.len() + bytes.len()) as int,
        }),
    ensures
        scan_from(log + bytes, offset) == (Scan {
            entries: scan_from(log, offset).entries.push(
                Entry { record, offset: log.len() as int, next: (log.len() + bytes.len()) as int },
            ),
            corrupt: None,
        }),
    decreases log.len() - offset,
{
    let longer = log + bytes;
    let last = Entry { record, offset: log.len() as int, next: (log.len() + bytes.len()) as int };
    if offset == log.len() {
        lemma_decode_bounds(longer, offset);
        assert(scan_from(longer, last.next).entries =~= Seq::<Entry>::empty());
    } else {
        let next = decode_at(log, offset)->next;
        lemma_decode_bounds(log, offset);
        lemma_decode_extends(log, offset, bytes);
        lemma_scan_append(log, next, bytes, record);
    }
}

/// A key of an index has, among the records that the index was replayed from, the `Set`
/// record at which the index holds it; no later record is about that key.
pub proof fn lemma_index_of_witness(entries: Seq<Entry>, key: Seq<char>) -> (i: int)
    requires
        index_of(entries).contains_key(key),
    ensures
        0 <= i < entries.len(),
        entries[i].record is Put,
        entries[i].record.key() == key,
        entries[i].offset == index_of(entries)[key],
        forall|j: int| i < j < entries.len() ==> (#[trigger] entries[j]).record.key() != key,
    decreases entries.len(),
{
    let last = entries.last();
    if last.record.key() == key {
        entries.len() - 1
    } else {
        let i = lemma_index_of_witness(entries.drop_last(), key);
        assert forall|j: int| i < j < entries.len() implies (#[trigger] entries[j]).record.key()
            != key by {
            if j < entries.len() - 1 {
                assert(entries.drop_last()[j].record.key() != key);
            }
        }
        i
    }
}

} // verus!
