//! What holds of every store, and of every store that is the one its log gives.

use vstd::prelude::*;
use crate::codec::{
    decode_at, encoding, lemma_decode_bounds, lemma_decode_encoding, lemma_decode_extends,
    lemma_decode_window, Decoded, RecordView,
};
use crate::error::{KvError, KvErrorKind};
use crate::log::{
    index_of, lemma_index_of_witness, lemma_scan_append, lemma_scan_entry, lemma_scan_ordered,
    replay, scan, value_at, Entry,
};
use crate::store::{
    applied, before_set, blank, compacted, contents, covers, kept, live, lookup, opened,
    remove_step, replayed, set_step, wf, written, StoreState,
};

verus! {

/// The last of `entries` that is about `key`.
pub open spec fn latest(entries: Seq<Entry>, key: Seq<char>) -> Option<Entry>
    decreases entries.len(),
{
    if entries.len() == 0 {
        None
    } else if entries.last().record.key() == key {
        Some(entries.last())
    } else {
        latest(entries.drop_last(), key)
    }
}

/// An index holds a key if and only if the latest record about the key is a `Set`, and holds
/// it at the offset of that record.
pub proof fn law_index_holds_latest_set(entries: Seq<Entry>, key: Seq<char>)
    ensures
        index_of(entries).get(key) == match latest(entries, key) {
            Some(entry) => if entry.record is Put {
                Some(entry.offset)
            } else {
                None
            },
            None => None,
        },
    decreases entries.len(),
{
    if entries.len() > 0 {
        law_index_holds_latest_set(entries.drop_last(), key);
    }
}

/// Replaying changes the index as `replay` says, and leaves the log alone.
pub proof fn lemma_replayed_index(s: StoreState, entries: Seq<Entry>)
    ensures
        replayed(s, entries).index == replay(s.index, entries),
        replayed(s, entries).log == s.log,
    decreases entries.len(),
{
    if entries.len() > 0 {
        lemma_replayed_index(s, entries.drop_last());
    }
}

/// Replaying does not read the log: on another log it gives the same index and keys.
pub proof fn lemma_replayed_log(s: StoreState, log: Seq<u8>, entries: Seq<Entry>)
    ensures
        replayed(StoreState { log, index: s.index, keys: s.keys }, entries) == (StoreState {
            log,
            index: replayed(s, entries).index,
            keys: replayed(s, entries).keys,
        }),
    decreases entries.len(),
{
    if entries.len() > 0 {
        lemma_replayed_log(s, log, entries.drop_last());
    }
}

/// Applying a record keeps every key of the index in the list of keys.
pub proof fn lemma_applied_covers(s: StoreState, record: RecordView, offset: int)
    requires
        covers(s),
    ensures
        covers(applied(s, record, offset)),
{
    let t = applied(s, record, offset);
    assert forall|key: Seq<char>| #[trigger] t.index.contains_key(key) implies t.keys.contains(
        key,
    ) by {
        if s.index.contains_key(key) {
            let i = choose|i: int| 0 <= i < s.keys.len() && s.keys[i] == key;
            assert(t.keys[i] == key);
        } else {
            assert(t.keys[t.keys.len() - 1] == key);
        }
    }
}

/// Replaying keeps every key of the index in the list of keys.
pub proof fn lemma_replayed_covers(s: StoreState, entries: Seq<Entry>)
    requires
        covers(s),
    ensures
        covers(replayed(s, entries)),
    decreases entries.len(),
{
    if entries.len() > 0 {
        lemma_replayed_covers(s, entries.drop_last());
        lemma_applied_covers(
            replayed(s, entries.drop_last()),
            entries.last().record,
            entries.last().offset,
        );
    }
}

/// In a store that is the one its log gives, the index is that of the log's records, and
/// every key of it stands in the list of keys.
pub proof fn lemma_wf(s: StoreState)
    requires
        wf(s),
    ensures
        s.index == index_of(scan(s.log).entries),
        covers(s),
{
    lemma_replayed_index(blank(s.log), scan(s.log).entries);
    lemma_replayed_covers(blank(s.log), scan(s.log).entries);
}

/// The index points at `Set` records only: each key that it holds stands at the offset of a
/// `Set` record for that very key.
pub proof fn law_index_points_at_set(s: StoreState, key: Seq<char>)
    requires
        wf(s),
        s.index.contains_key(key),
    ensures
        0 <= s.index[key] < s.log.len(),
        decode_at(s.log, s.index[key]) is Record,
        decode_at(s.log, s.index[key])->record is Put,
        decode_at(s.log, s.index[key])->record.key() == key,
        lookup(s, key) is Ok,
        lookup(s, key).unwrap() is Some,
{
    lemma_wf(s);
    let i = lemma_index_of_witness(scan(s.log).entries, key);
    lemma_scan_entry(s.log, 0, i);
}

/// `get` never fails on such a store: it answers with the value that the store holds for the
/// key, or with `None` where it holds none.
pub proof fn law_get(s: StoreState, key: Seq<char>)
    requires
        wf(s),
    ensures
        lookup(s, key) == Ok::<Option<Seq<char>>, KvError>(contents(s).get(key)),
        contents(s).contains_key(key) == s.index.contains_key(key),
{
    if s.index.contains_key(key) {
        law_index_points_at_set(s, key);
    }
}

/// Once compaction has failed at a key, it has failed.
pub proof fn lemma_kept_failed(s: StoreState, m: int, n: int)
    requires
        0 <= m <= n,
        kept(s, m) is Err,
    ensures
        kept(s, n) == kept(s, m),
    decreases n - m,
{
    if m < n {
        lemma_kept_failed(s, m, n - 1);
    }
}

/// Whether some key of the index of `s` has a record that reads as the error `e`.
pub open spec fn fails_with(s: StoreState, e: KvError) -> bool {
    exists|key: Seq<char>| #[trigger]
        s.index.contains_key(key) && value_at(s.log, s.index[key]) == Err::<Seq<char>, KvError>(e)
}

/// Whether the record of every key of the index of `s` reads as a `Set` record.
pub open spec fn readable(s: StoreState) -> bool {
    forall|key: Seq<char>| #[trigger]
        s.index.contains_key(key) ==> value_at(s.log, s.index[key]) is Ok
}

/// The store `done`, with the record that `s` has for `key` at the end of its log and `key`
/// pointed at it.
spec fn taking(s: StoreState, done: StoreState, key: Seq<char>) -> StoreState {
    StoreState {
        log: done.log + s.log.subrange(s.index[key], decode_at(s.log, s.index[key])->next),
        index: done.index.insert(key, done.log.len() as int),
        keys: done.keys.push(key),
    }
}

/// Whether every key of `done` is a key of `s` whose record reads in `done` as in `s`.
spec fn same_values(s: StoreState, done: StoreState) -> bool {
    forall|key: Seq<char>| #[trigger]
        done.index.contains_key(key) ==> {
            &&& s.index.contains_key(key)
            &&& value_at(done.log, done.index[key]) is Ok
            &&& value_at(done.log, done.index[key]) == value_at(s.log, s.index[key])
        }
}

/// Taking the record of one more key keeps how the records read.
proof fn lemma_taking_reads(s: StoreState, done: StoreState, key: Seq<char>)
    requires
        same_values(s, done),
        s.index.contains_key(key),
        value_at(s.log, s.index[key]) is Ok,
    ensures
        same_values(s, taking(s, done, key)),
{
    let after = taking(s, done, key);
    let offset = s.index[key];
    let next = decode_at(s.log, offset)->next;
    let bytes = s.log.subrange(offset, next);
    let at = done.log.len() as int;
    lemma_decode_bounds(s.log, offset);
    assert(after.log.subrange(at, at + bytes.len()) =~= bytes);
    lemma_decode_window(s.log, offset, after.log, at);
    assert forall|k: Seq<char>| #[trigger] after.index.contains_key(k) implies {
        &&& s.index.contains_key(k)
        &&& value_at(after.log, after.index[k]) is Ok
        &&& value_at(after.log, after.index[k]) == value_at(s.log, s.index[k])
    } by {
        if k != key {
            lemma_decode_extends(done.log, done.index[k], bytes);
        }
    }
}

/// Whether `done` holds each of the first `n` keys of `s` that the index of `s` holds.
spec fn holds_first(s: StoreState, done: StoreState, n: int) -> bool {
    forall|i: int|
        0 <= i < n && s.index.contains_key(#[trigger] s.keys[i]) ==> done.index.contains_key(
            s.keys[i],
        )
}

/// Compaction, as far as the first `n` keys, keeps what it has read and fails only with the
/// error of a key.
proof fn lemma_kept_reads(s: StoreState, n: int)
    requires
        0 <= n <= s.keys.len(),
    ensures
        match kept(s, n) {
            Ok(done) => same_values(s, done) && holds_first(s, done, n),
            Err(e) => fails_with(s, e),
        },
        readable(s) ==> kept(s, n) is Ok,
    decreases n,
{
    if n > 0 {
        lemma_kept_reads(s, n - 1);
        if let Ok(done) = kept(s, n - 1) {
            let key = s.keys[n - 1];
            if s.index.contains_key(key) && !done.index.contains_key(key) {
                if value_at(s.log, s.index[key]) is Ok {
                    lemma_taking_reads(s, done, key);
                    assert(kept(s, n) == Ok::<StoreState, KvError>(taking(s, done, key)));
                    assert(holds_first(s, taking(s, done, key), n));
                }
            } else {
                assert(holds_first(s, done, n));
            }
        }
    }
}

/// Compaction succeeds exactly where `get` succeeds for every key of the index. It then
/// leaves a store that holds the same keys with the same values. Where it fails, it fails
/// with the error that `get` reports for some key.
pub proof fn law_compact_reads(s: StoreState)
    requires
        covers(s),
    ensures
        compacted(s) is Ok <==> readable(s),
        compacted(s) is Err ==> fails_with(s, compacted(s)->Err_0),
        compacted(s) is Ok ==> {
            &&& compacted(s).unwrap().index.dom() == s.index.dom()
            &&& contents(compacted(s).unwrap()) == contents(s)
        },
{
    let n = s.keys.len() as int;
    lemma_kept_reads(s, n);
    if let Ok(c) = compacted(s) {
        assert forall|key: Seq<char>| s.index.contains_key(key) implies c.index.contains_key(
            key,
        ) by {
            let i = choose|i: int| 0 <= i < s.keys.len() && s.keys[i] == key;
            assert(s.index.contains_key(s.keys[i]));
        }
        assert(c.index.dom() =~= s.index.dom());
        assert forall|key: Seq<char>| lookup(c, key) == lookup(s, key) by {}
        assert(contents(c) =~= contents(s));
        assert forall|key: Seq<char>| #[trigger] s.index.contains_key(key) implies value_at(
            s.log,
            s.index[key],
        ) is Ok by {
            assert(c.index.contains_key(key));
        }
    }
}

/// Whether every record of a store's log is the one at which the index holds its key.
pub open spec fn all_live(s: StoreState) -> bool {
    forall|j: int|
        0 <= j < scan(s.log).entries.len() ==> live(s.index, #[trigger] scan(s.log).entries[j])
}

/// Where the first `m` of `entries` end: the offset just past the last of them.
spec fn reach(entries: Seq<Entry>, m: int) -> int {
    if m <= 0 {
        0
    } else {
        entries[m - 1].next
    }
}

/// The bytes that the live records of the keys `chosen` take, among the first `m` records of
/// the log of `s`.
spec fn weight(s: StoreState, chosen: Set<Seq<char>>, m: int) -> int
    decreases m,
{
    if m <= 0 {
        0
    } else {
        let e = scan(s.log).entries[m - 1];
        weight(s, chosen, m - 1) + if live(s.index, e) && chosen.contains(e.record.key()) {
            e.next - e.offset
        } else {
            0
        }
    }
}

/// Records that lie one after the other take no more bytes than the log has up to the last.
proof fn lemma_weight_bound(s: StoreState, chosen: Set<Seq<char>>, m: int)
    requires
        0 <= m <= scan(s.log).entries.len(),
    ensures
        0 <= weight(s, chosen, m) <= reach(scan(s.log).entries, m),
        reach(scan(s.log).entries, m) <= s.log.len(),
    decreases m,
{
    if m > 0 {
        lemma_weight_bound(s, chosen, m - 1);
        lemma_scan_entry(s.log, 0, m - 1);
        if m >= 2 {
            lemma_scan_ordered(s.log, 0, m - 2, m - 1);
        }
    }
}

/// One more key adds the bytes of its one live record.
proof fn lemma_weight_add(s: StoreState, chosen: Set<Seq<char>>, key: Seq<char>, i: int, m: int)
    requires
        0 <= i < scan(s.log).entries.len(),
        0 <= m <= scan(s.log).entries.len(),
        live(s.index, scan(s.log).entries[i]),
        scan(s.log).entries[i].record.key() == key,
        !chosen.contains(key),
    ensures
        weight(s, chosen.insert(key), m) == weight(s, chosen, m) + if i < m {
            scan(s.log).entries[i].next - scan(s.log).entries[i].offset
        } else {
            0
        },
    decreases m,
{
    if m > 0 {
        lemma_weight_add(s, chosen, key, i, m - 1);
        let e = scan(s.log).entries[m - 1];
        if m - 1 != i && live(s.index, e) && e.record.key() == key {
            lemma_scan_entry(s.log, 0, i);
            lemma_scan_entry(s.log, 0, m - 1);
            if i < m - 1 {
                lemma_scan_ordered(s.log, 0, i, m - 1);
            } else {
                lemma_scan_ordered(s.log, 0, m - 1, i);
            }
        }
    }
}

/// The store `prev`, with the bytes of one more `Set` record of `log` at its end and the
/// record's key pointed at them.
spec fn with_record(prev: StoreState, log: Seq<u8>, e: Entry) -> StoreState {
    StoreState {
        log: prev.log + log.subrange(e.offset, e.next),
        index: prev.index.insert(e.record.key(), prev.log.len() as int),
        keys: prev.keys.push(e.record.key()),
    }
}

/// A store that takes over a `Set` record of another log, for a key that it does not hold,
/// holds it as its last record.
proof fn lemma_with_record(prev: StoreState, log: Seq<u8>, e: Entry)
    requires
        wf(prev),
        e.record is Put,
        !prev.index.contains_key(e.record.key()),
        decode_at(log, e.offset) == (Decoded::Record { record: e.record, next: e.next }),
    ensures
        wf(with_record(prev, log, e)),
        scan(with_record(prev, log, e).log).entries == scan(prev.log).entries.push(
            Entry {
                record: e.record,
                offset: prev.log.len() as int,
                next: prev.log.len() + e.next - e.offset,
            },
        ),
{
    lemma_decode_bounds(log, e.offset);
    let took = with_record(prev, log, e);
    let bytes = log.subrange(e.offset, e.next);
    let at = prev.log.len() as int;
    assert(took.log.subrange(at, at + bytes.len()) =~= bytes);
    lemma_decode_window(log, e.offset, took.log, at);
    lemma_scan_append(prev.log, 0, bytes, e.record);
    let moved = Entry { record: e.record, offset: at, next: at + e.next - e.offset };
    let entries = scan(prev.log).entries;
    assert(entries.push(moved).drop_last() =~= entries);
    lemma_replayed_log(blank(prev.log), took.log, entries);
    assert(blank(took.log) == (StoreState {
        log: took.log,
        index: blank(prev.log).index,
        keys: blank(prev.log).keys,
    }));
    assert(replayed(blank(took.log), entries.push(moved)) =~= took);
}

/// Taking over a record for a key that `prev` does not hold leaves every record live.
proof fn lemma_with_record_all_live(prev: StoreState, log: Seq<u8>, e: Entry)
    requires
        wf(prev),
        all_live(prev),
        e.record is Put,
        !prev.index.contains_key(e.record.key()),
        decode_at(log, e.offset) == (Decoded::Record { record: e.record, next: e.next }),
    ensures
        all_live(with_record(prev, log, e)),
{
    lemma_with_record(prev, log, e);
    let took = with_record(prev, log, e);
    assert forall|j: int| 0 <= j < scan(took.log).entries.len() implies live(
        took.index,
        #[trigger] scan(took.log).entries[j],
    ) by {
        if j < scan(prev.log).entries.len() {
            let old_entry = scan(prev.log).entries[j];
            assert(scan(took.log).entries[j] == old_entry);
            assert(live(prev.index, old_entry));
        }
    }
}

/// What holds of compaction, as far as the first `n` keys, on a store that is the one its
/// log gives.
spec fn kept_rightly(s: StoreState, n: int) -> bool {
    &&& kept(s, n) is Ok
    &&& wf(kept(s, n).unwrap())
    &&& all_live(kept(s, n).unwrap())
    &&& kept(s, n).unwrap().log.len() == weight(
        s,
        kept(s, n).unwrap().index.dom(),
        scan(s.log).entries.len() as int,
    )
}

/// Compaction walks the keys of such a store rightly.
proof fn lemma_kept_rightly(s: StoreState, n: int)
    requires
        wf(s),
        0 <= n <= s.keys.len(),
    ensures
        kept_rightly(s, n),
    decreases n,
{
    let entries = scan(s.log).entries;
    let count = entries.len() as int;
    if n == 0 {
        let done = kept(s, 0).unwrap();
        assert(done.index.dom() =~= Set::<Seq<char>>::empty());
        lemma_weight_none(s, count);
        assert(scan(done.log).entries =~= Seq::<Entry>::empty());
    } else {
        lemma_kept_rightly(s, n - 1);
        let done = kept(s, n - 1).unwrap();
        let key = s.keys[n - 1];
        if s.index.contains_key(key) && !done.index.contains_key(key) {
            law_index_points_at_set(s, key);
            lemma_wf(s);
            let i = lemma_index_of_witness(entries, key);
            lemma_scan_entry(s.log, 0, i);
            let e = entries[i];
            assert(kept(s, n).unwrap() == with_record(done, s.log, e));
            lemma_with_record(done, s.log, e);
            lemma_with_record_all_live(done, s.log, e);
            lemma_weight_add(s, done.index.dom(), key, i, count);
            assert(with_record(done, s.log, e).index.dom() =~= done.index.dom().insert(key));
        }
    }
}

/// No key takes no bytes.
proof fn lemma_weight_none(s: StoreState, m: int)
    ensures
        weight(s, Set::<Seq<char>>::empty(), m) == 0,
    decreases m,
{
    if m > 0 {
        lemma_weight_none(s, m - 1);
    }
}

/// Compaction of a store that is the one its log gives: it succeeds, the store it leaves is
/// again the one its log gives and holds the same keys with the same values, its log is no
/// longer than before, and every record of that log is the `Set` record at which the index
/// holds its key, so that no key has two.
pub proof fn law_compact(s: StoreState)
    requires
        wf(s),
    ensures
        compacted(s) is Ok,
        wf(compacted(s).unwrap()),
        contents(compacted(s).unwrap()) == contents(s),
        compacted(s).unwrap().index.dom() == s.index.dom(),
        compacted(s).unwrap().log.len() <= s.log.len(),
        all_live(compacted(s).unwrap()),
{
    let c = compacted(s).unwrap();
    lemma_wf(s);
    lemma_kept_rightly(s, s.keys.len() as int);
    law_compact_reads(s);
    lemma_weight_bound(s, c.index.dom(), scan(s.log).entries.len() as int);
}

/// What a store holds for a key once `record` has been written.
pub open spec fn value_written(record: RecordView) -> Option<Seq<char>> {
    match record {
        RecordView::Put { value, .. } => Some(value),
        RecordView::Remove { .. } => None,
    }
}

/// A record appended to the log, and applied to the index, changes what the store holds for
/// the record's key and for no other.
pub proof fn lemma_written(s: StoreState, record: RecordView)
    requires
        wf(s),
        encoding(record) is Some,
    ensures
        wf(written(s, record, encoding(record).unwrap())),
        decode_at(written(s, record, encoding(record).unwrap()).log, s.log.len() as int) == (
        Decoded::Record {
            record,
            next: written(s, record, encoding(record).unwrap()).log.len() as int,
        }),
        contents(written(s, record, encoding(record).unwrap())) == match record {
            RecordView::Put { key, value } => contents(s).insert(key, value),
            RecordView::Remove { key } => contents(s).remove(key),
        },
{
    let bytes = encoding(record).unwrap();
    let t = written(s, record, bytes);
    let at = s.log.len() as int;
    assert(s.log + bytes + Seq::<u8>::empty() =~= s.log + bytes);
    lemma_decode_encoding(s.log, record, Seq::empty());
    lemma_scan_append(s.log, 0, bytes, record);
    let entry = Entry { record, offset: at, next: at + bytes.len() };
    let entries = scan(s.log).entries;
    assert(entries.push(entry).drop_last() =~= entries);
    lemma_replayed_log(blank(s.log), t.log, entries);
    assert(blank(t.log) == (StoreState {
        log: t.log,
        index: blank(s.log).index,
        keys: blank(s.log).keys,
    }));
    assert(replayed(blank(t.log), entries.push(entry)) =~= t);
    assert forall|key: Seq<char>| key != record.key() implies lookup(t, key) == lookup(s, key) by {
        if s.index.contains_key(key) {
            law_index_points_at_set(s, key);
            lemma_decode_extends(s.log, s.index[key], bytes);
        }
    }
    match record {
        RecordView::Put { key, value } => {
            assert(contents(t) =~= contents(s).insert(key, value));
        },
        RecordView::Remove { key } => {
            assert(contents(t) =~= contents(s).remove(key));
        },
    }
}

/// `set` gives the key its value and leaves every other key as it was. It fails only where
/// the key or the value cannot be encoded, and then the store holds what it held. After it
/// the index holds the key at the record just written, the last of the log.
pub proof fn law_set(s: StoreState, key: Seq<char>, value: Seq<char>)
    requires
        wf(s),
    ensures
        wf(set_step(s, key, value).0),
        set_step(s, key, value).1 == (if encoding(RecordView::Put { key, value }) is Some {
            Ok::<(), KvError>(())
        } else {
            Err::<(), KvError>(KvError::of(KvErrorKind::Encode))
        }),
        contents(set_step(s, key, value).0) == (if encoding(RecordView::Put { key, value })
            is Some {
            contents(s).insert(key, value)
        } else {
            contents(s)
        }),
        encoding(RecordView::Put { key, value }) is Some ==> {
            let t = set_step(s, key, value).0;
            &&& t.index.contains_key(key)
            &&& decode_at(t.log, t.index[key]) == (Decoded::Record {
                record: RecordView::Put { key, value },
                next: t.log.len() as int,
            })
        },
{
    let record = RecordView::Put { key, value };
    if s.log.len() > crate::store::COMPACTION_THRESHOLD {
        law_compact(s);
    }
    let base = before_set(s).unwrap();
    if encoding(record) is Some {
        lemma_written(base, record);
    }
}

/// `remove` takes the key out and leaves every other key as it was. On a key that the store
/// does not hold it fails with `KeyNotFound`; whenever it fails, the store is unchanged.
pub proof fn law_remove(s: StoreState, key: Seq<char>)
    requires
        wf(s),
    ensures
        wf(remove_step(s, key).0),
        remove_step(s, key).1 == (if !contents(s).contains_key(key) {
            Err::<(), KvError>(KvError::of(KvErrorKind::KeyNotFound))
        } else if encoding(RecordView::Remove { key }) is None {
            Err::<(), KvError>(KvError::of(KvErrorKind::Encode))
        } else {
            Ok::<(), KvError>(())
        }),
        remove_step(s, key).1 is Err ==> remove_step(s, key).0 == s,
        remove_step(s, key).1 is Ok ==> contents(remove_step(s, key).0) == contents(s).remove(key),
{
    law_get(s, key);
    let record = RecordView::Remove { key };
    if s.index.contains_key(key) && encoding(record) is Some {
        lemma_written(s, record);
    }
}

/// Closing and opening again loses nothing: a log opens to a store whose index is the one
/// that the log gives, and the log of such a store opens to that very store.
pub proof fn law_reopen(s: StoreState)
    ensures
        opened(s.log) is Ok ==> wf(opened(s.log).unwrap()),
        wf(s) ==> opened(s.log) == Ok::<StoreState, KvError>(s),
{
    lemma_replayed_index(blank(s.log), scan(s.log).entries);
}

/// Reading changes nothing: what `get` answers depends on the store and the key alone, so
/// two reads of a key with no write between them get the same answer.
pub proof fn law_get_repeats(
    s: StoreState,
    key: Seq<char>,
    first: Result<Option<Seq<char>>, KvError>,
    second: Result<Option<Seq<char>>, KvError>,
)
    requires
        first == lookup(s, key),
        second == lookup(s, key),
    ensures
        first == second,
{
}

/// The store after one write: a `Set` record stands for `set`, a `Remove` record for `remove`.
pub open spec fn after(s: StoreState, op: RecordView) -> StoreState {
    match op {
        RecordView::Put { key, value } => set_step(s, key, value).0,
        RecordView::Remove { key } => remove_step(s, key).0,
    }
}

/// The store after the writes `ops`, made in order.
pub open spec fn after_all(s: StoreState, ops: Seq<RecordView>) -> StoreState
    decreases ops.len(),
{
    if ops.len() == 0 {
        s
    } else {
        after(after_all(s, ops.drop_last()), ops.last())
    }
}

/// The last of the writes `ops` that is about `key`.
pub open spec fn last_write(ops: Seq<RecordView>, key: Seq<char>) -> Option<RecordView>
    decreases ops.len(),
{
    if ops.len() == 0 {
        None
    } else if ops.last().key() == key {
        Some(ops.last())
    } else {
        last_write(ops.drop_last(), key)
    }
}

/// After any sequence of `set` and `remove` whose records can be encoded, `get` answers with
/// the value of the last `set` of the key if no `remove` of the key came after it, with
/// `None` if the last write of the key was a `remove`, and with what the store held before if
/// the key was never written.
pub proof fn law_get_after_writes(s: StoreState, ops: Seq<RecordView>, key: Seq<char>)
    requires
        wf(s),
        forall|i: int| 0 <= i < ops.len() ==> encoding(#[trigger] ops[i]) is Some,
    ensures
        wf(after_all(s, ops)),
        lookup(after_all(s, ops), key) == Ok::<Option<Seq<char>>, KvError>(
            match last_write(ops, key) {
                Some(op) => value_written(op),
                None => contents(s).get(key),
            },
        ),
    decreases ops.len(),
{
    if ops.len() == 0 {
        law_get(s, key);
    } else {
        let before = after_all(s, ops.drop_last());
        let op = ops.last();
        law_get_after_writes(s, ops.drop_last(), key);
        law_get(before, key);
        match op {
            RecordView::Put { key: k, value } => {
                law_set(before, k, value);
            },
            RecordView::Remove { key: k } => {
                law_remove(before, k);
            },
        }
        law_get(after_all(s, ops), key);
    }
}

} // verus!
