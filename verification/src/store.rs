//! The store: an index over a command log, and the operations that keep the two in step.

use vstd::prelude::*;
use vstd::hash_map::StringHashMap;
use vstd::slice::{slice_subrange, slice_to_vec};
use vstd::string::StringExecFns;
use crate::codec::{decode, decode_at, encoding, Record, RecordView};
use crate::error::{KvError, KvErrorKind};
use crate::laws::{
    all_live, fails_with, law_compact, law_compact_reads, law_get, law_remove, law_set,
    lemma_kept_failed, lemma_replayed_index, readable,
};
use crate::log::{append, apply, read_value, scan, scan_from, value_at, value_of, Entry};

verus! {

/// The name of the log file inside a directory that holds a store.
pub const DEFAULT_LOG_NAME: &'static str = "kv.log";

/// The size of the log, in bytes, above which `set` compacts it before it writes.
pub const COMPACTION_THRESHOLD: usize = 30720;

/// What a store holds: the bytes of its log, for each key of its index an offset into them,
/// and the keys in the order in which the index came to hold them. A key that was removed
/// stays in `keys`, and stands there again when it comes back.
#[verifier::ext_equal]
pub struct StoreState {
    pub log: Seq<u8>,
    pub index: Map<Seq<char>, int>,
    pub keys: Seq<Seq<char>>,
}

/// The store with the given log, an empty index and no keys.
pub open spec fn blank(log: Seq<u8>) -> StoreState {
    StoreState { log, index: Map::empty(), keys: Seq::empty() }
}

/// Whether every key of the index stands in `keys`. It holds of every `KvStore`.
pub open spec fn covers(s: StoreState) -> bool {
    forall|key: Seq<char>| #[trigger] s.index.contains_key(key) ==> s.keys.contains(key)
}

/// The store after one more record, which begins at `offset`, is applied to its index: a
/// `Set` puts its key at that offset, and at the end of `keys` if the index did not hold it;
/// a `Remove` takes its key out of the index.
pub open spec fn applied(s: StoreState, record: RecordView, offset: int) -> StoreState {
    StoreState {
        log: s.log,
        index: apply(s.index, record, offset),
        keys: match record {
            RecordView::Put { key, .. } => if s.index.contains_key(key) {
                s.keys
            } else {
                s.keys.push(key)
            },
            RecordView::Remove { .. } => s.keys,
        },
    }
}

/// The store after the records of `entries` are applied to it in order.
pub open spec fn replayed(s: StoreState, entries: Seq<Entry>) -> StoreState
    decreases entries.len(),
{
    if entries.len() == 0 {
        s
    } else {
        applied(replayed(s, entries.drop_last()), entries.last().record, entries.last().offset)
    }
}

/// Whether the store is the one that its log gives: the log reads to its end, and replaying
/// it on an empty index gives the index and the keys of `s`.
pub open spec fn wf(s: StoreState) -> bool {
    &&& scan(s.log).corrupt is None
    &&& s == replayed(blank(s.log), scan(s.log).entries)
}

/// The store that `open` builds on a log, or `CorruptRecord` where the log cannot be read to
/// the end.
pub open spec fn opened(log: Seq<u8>) -> Result<StoreState, KvError> {
    match scan(log).corrupt {
        Some(offset) => Err(KvError::of(KvErrorKind::CorruptRecord { offset: offset as usize })),
        None => Ok(replayed(blank(log), scan(log).entries)),
    }
}

/// Whether `entry` is the record that `index` keeps for its key.
pub open spec fn live(index: Map<Seq<char>, int>, entry: Entry) -> bool {
    &&& entry.record is Put
    &&& index.contains_key(entry.record.key())
    &&& index[entry.record.key()] == entry.offset
}

/// Compaction, as far as the first `n` of the keys of `s`. Each key that the index holds,
/// taken once, where it first stands in `keys`, has its record read at its offset. Where
/// that is a `Set` record, its bytes go to the end of the new log as they stand, whatever key
/// the record names, and the key is put at the offset where they now begin. Where it is not,
/// the first such key gives its error, the one that `get` reports for it.
pub open spec fn kept(s: StoreState, n: int) -> Result<StoreState, KvError>
    decreases n,
{
    if n <= 0 {
        Ok(blank(Seq::empty()))
    } else {
        match kept(s, n - 1) {
            Err(e) => Err(e),
            Ok(done) => {
                let key = s.keys[n - 1];
                if !s.index.contains_key(key) || done.index.contains_key(key) {
                    Ok(done)
                } else {
                    match value_at(s.log, s.index[key]) {
                        Err(e) => Err(e),
                        Ok(_) => Ok(
                            StoreState {
                                log: done.log + s.log.subrange(
                                    s.index[key],
                                    decode_at(s.log, s.index[key])->next,
                                ),
                                index: done.index.insert(key, done.log.len() as int),
                                keys: done.keys.push(key),
                            },
                        ),
                    }
                }
            },
        }
    }
}

/// The store after compaction, or the error of the first key whose record cannot be read as
/// a `Set` record.
pub open spec fn compacted(s: StoreState) -> Result<StoreState, KvError> {
    kept(s, s.keys.len() as int)
}

/// What `get` answers.
pub open spec fn lookup(s: StoreState, key: Seq<char>) -> Result<Option<Seq<char>>, KvError> {
    if s.index.contains_key(key) {
        match value_at(s.log, s.index[key]) {
            Ok(value) => Ok(Some(value)),
            Err(e) => Err(e),
        }
    } else {
        Ok(None)
    }
}

/// The keys that the store holds, each with its value.
pub open spec fn contents(s: StoreState) -> Map<Seq<char>, Seq<char>> {
    Map::new(
        |key: Seq<char>| lookup(s, key) is Ok && lookup(s, key).unwrap() is Some,
        |key: Seq<char>| lookup(s, key).unwrap().unwrap(),
    )
}

/// The store on which `set` writes: the compacted one where the log is over the threshold.
pub open spec fn before_set(s: StoreState) -> Result<StoreState, KvError> {
    if s.log.len() > COMPACTION_THRESHOLD {
        compacted(s)
    } else {
        Ok(s)
    }
}

/// The store with the bytes `bytes` of `record` at the end of its log, and the record
/// applied to its index.
pub open spec fn written(s: StoreState, record: RecordView, bytes: Seq<u8>) -> StoreState {
    applied(
        StoreState { log: s.log + bytes, index: s.index, keys: s.keys },
        record,
        s.log.len() as int,
    )
}

/// The store after `set`, and what `set` returns.
pub open spec fn set_step(s: StoreState, key: Seq<char>, value: Seq<char>) -> (
    StoreState,
    Result<(), KvError>,
) {
    match before_set(s) {
        Err(e) => (s, Err(e)),
        Ok(base) => match encoding(RecordView::Put { key, value }) {
            None => (base, Err(KvError::of(KvErrorKind::Encode))),
            Some(bytes) => (written(base, RecordView::Put { key, value }, bytes), Ok(())),
        },
    }
}

/// The store after `remove`, and what `remove` returns.
pub open spec fn remove_step(s: StoreState, key: Seq<char>) -> (StoreState, Result<(), KvError>) {
    if !s.index.contains_key(key) {
        (s, Err(KvError::of(KvErrorKind::KeyNotFound)))
    } else {
        match encoding(RecordView::Remove { key }) {
            None => (s, Err(KvError::of(KvErrorKind::Encode))),
            Some(bytes) => (written(s, RecordView::Remove { key }, bytes), Ok(())),
        }
    }
}

/// The strings of `keys`.
pub open spec fn names(keys: Seq<String>) -> Seq<Seq<char>> {
    Seq::new(keys.len(), |i: int| keys[i]@)
}

/// Whether the slot that `slots` has for `key` names the place of `key` in `keys`.
pub open spec fn holds(
    slots: Map<Seq<char>, (usize, usize)>,
    keys: Seq<String>,
    key: Seq<char>,
) -> bool {
    &&& slots.contains_key(key)
    &&& slots[key].1 < keys.len()
    &&& keys[slots[key].1 as int]@ == key
}

/// The index that `slots` and `keys` stand for: the keys whose slot names their place, each
/// at the offset of its slot.
pub open spec fn indexed(slots: Map<Seq<char>, (usize, usize)>, keys: Seq<String>) -> Map<
    Seq<char>,
    int,
> {
    Map::new(|key: Seq<char>| holds(slots, keys, key), |key: Seq<char>| slots[key].0 as int)
}

/// A key-value store of strings, kept as a command log and an index into it.
///
/// The index has a slot for each key: the offset of the key's record, and the place of the
/// key in the list of keys. A slot counts only if the key stands at that place, so that
/// every key of the index is in the list, and compaction, which walks the list, meets it.
pub struct KvStore {
    index: StringHashMap<(usize, usize)>,
    keys: Vec<String>,
    log: Vec<u8>,
}

impl View for KvStore {
    type V = StoreState;

    closed spec fn view(&self) -> StoreState {
        StoreState {
            log: self.log@,
            index: indexed(self.index@, self.keys@),
            keys: names(self.keys@),
        }
    }
}

impl Default for KvStore {
    /// An empty store.
    fn default() -> (kv: KvStore)
        ensures
            kv@ == blank(Seq::empty()),
    {
        KvStore::new()
    }
}

impl KvStore {
    /// Every key of the index stands in the list of keys.
    pub proof fn lemma_covers(&self)
        ensures
            covers(self@),
    {
        assert forall|key: Seq<char>| #[trigger]
            self@.index.contains_key(key) implies self@.keys.contains(key) by {
            assert(names(self.keys@)[self.index@[key].1 as int] == key);
        }
    }

    /// An empty store.
    pub fn new() -> (kv: KvStore)
        ensures
            kv@ == blank(Seq::empty()),
            wf(kv@),
            contents(kv@) == Map::<Seq<char>, Seq<char>>::empty(),
    {
        let kv = KvStore { index: StringHashMap::new(), keys: Vec::new(), log: Vec::new() };
        assert(kv@ =~= blank(Seq::empty()));
        assert(contents(kv@) =~= Map::<Seq<char>, Seq<char>>::empty());
        kv
    }

    /// Opens the store whose log holds `log`: replays every record, from the first, on an
    /// empty index.
    ///
    /// Fails with `CorruptRecord` where the log cannot be read to the end.
    pub fn open(log: Vec<u8>) -> (r: Result<KvStore, KvError>)
        ensures
            match opened(log@) {
                Ok(s) => r matches Ok(kv) && kv@ == s && wf(kv@),
                Err(e) => r == Err::<KvStore, KvError>(e),
            },
    {
        let mut kv = KvStore { index: StringHashMap::new(), keys: Vec::new(), log };
        assert(kv@ =~= blank(log@));
        proof {
            lemma_replayed_index(blank(log@), scan(log@).entries);
        }
        match kv.fill_index() {
            Ok(()) => Ok(kv),
            Err(e) => Err(e),
        }
    }

    /// The slot of `key`, where the index holds it: its offset and its place in the list.
    fn slot(&self, key: &String) -> (r: Option<(usize, usize)>)
        ensures
            match r {
                Some(slot) => holds(self.index@, self.keys@, key@) && slot == self.index@[key@],
                None => !holds(self.index@, self.keys@, key@),
            },
    {
        match self.index.get(key.as_str()) {
            Some(slot) => {
                let (offset, place) = *slot;
                if place < self.keys.len() && self.keys[place] == *key {
                    Some((offset, place))
                } else {
                    None
                }
            },
            None => None,
        }
    }

    /// Applies to the index a record that begins at `offset`: a `Set` puts its key at that
    /// offset, a `Remove` takes its key out. The log is not read: whether a record stands at
    /// `offset` is the caller's to know.
    pub fn apply(&mut self, record: Record, offset: usize)
        ensures
            final(self)@ == applied(old(self)@, record@, offset as int),
    {
        match record {
            Record::Put { key, value: _ } => {
                let place = match self.slot(&key) {
                    Some(slot) => slot.1,
                    None => {
                        self.keys.push(key.clone());
                        self.keys.len() - 1
                    },
                };
                self.index.insert(key, (offset, place));
                proof {
                    assert forall|k: Seq<char>| holds(self.index@, self.keys@, k) == (k == key@
                        || holds(old(self).index@, old(self).keys@, k)) by {
                        if k != key@ && old(self).index@.contains_key(k) {
                            let p = old(self).index@[k].1 as int;
                            if p < old(self).keys@.len() {
                                assert(self.keys@[p] == old(self).keys@[p]);
                            }
                        }
                    }
                    assert(self@.index =~= old(self)@.index.insert(key@, offset as int));
                    assert(self@.keys =~= applied(old(self)@, record@, offset as int).keys);
                }
            },
            Record::Remove { key } => {
                self.index.remove(key.as_str());
                assert(self@.index =~= old(self)@.index.remove(key@));
            },
        }
    }

    /// Applies every record of the log, in log order, to the index.
    ///
    /// Fails with `CorruptRecord` at the first offset whose bytes are no record; the records
    /// before it have then been applied.
    pub fn fill_index(&mut self) -> (r: Result<(), KvError>)
        ensures
            final(self)@ == replayed(old(self)@, scan(old(self)@.log).entries),
            r == match scan(old(self)@.log).corrupt {
                Some(offset) => Err::<(), KvError>(
                    KvError::of(KvErrorKind::CorruptRecord { offset: offset as usize }),
                ),
                None => Ok::<(), KvError>(()),
            },
    {
        let mut offset: usize = 0;
        let ghost mut done: Seq<Entry> = Seq::empty();
        loop
            invariant
                self.log@ == old(self).log@,
                offset <= self.log@.len(),
                scan(self.log@).entries == done + scan_from(self.log@, offset as int).entries,
                scan(self.log@).corrupt == scan_from(self.log@, offset as int).corrupt,
                self@ == replayed(old(self)@, done),
            decreases self.log@.len() - offset,
        {
            match decode(self.log.as_slice(), offset) {
                Err(e) => return Err(e),
                Ok(None) => return Ok(()),
                Ok(Some((record, next))) => {
                    let ghost entry = Entry {
                        record: record@,
                        offset: offset as int,
                        next: next as int,
                    };
                    proof {
                        assert(done.push(entry).drop_last() =~= done);
                    }
                    self.apply(record, offset);
                    proof {
                        done = done.push(entry);
                    }
                    offset = next;
                },
            }
        }
    }

    /// Rewrites the log down to the records that the index points at, one for each key, and
    /// points the index at them.
    ///
    /// Reads the record of every key at the key's offset, and copies it as it stands: `get`
    /// answers after compaction what it answered before. Fails, and leaves the store as it
    /// is, where for some key no `Set` record stands at the offset: with `OffsetNotFound`,
    /// `CorruptRecord` or `InvariantViolation`, as `get` reports it for that key.
    #[verifier::loop_isolation(false)]
    pub fn compact(&mut self) -> (r: Result<(), KvError>)
        ensures
            match compacted(old(self)@) {
                Ok(c) => r == Ok::<(), KvError>(()) && final(self)@ == c,
                Err(e) => r == Err::<(), KvError>(e) && final(self)@ == old(self)@,
            },
            r is Ok <==> readable(old(self)@),
            r is Err ==> fails_with(old(self)@, r->Err_0),
            r is Ok ==> {
                &&& final(self)@.index.dom() == old(self)@.index.dom()
                &&& contents(final(self)@) == contents(old(self)@)
            },
            wf(old(self)@) ==> {
                &&& r is Ok
                &&& wf(final(self)@)
                &&& all_live(final(self)@)
                &&& final(self)@.log.len() <= old(self)@.log.len()
            },
    {
        proof {
            self.lemma_covers();
            law_compact_reads(self@);
            if wf(self@) {
                law_compact(self@);
            }
        }
        let mut log: Vec<u8> = Vec::new();
        let mut index: StringHashMap<(usize, usize)> = StringHashMap::new();
        let mut keys: Vec<String> = Vec::new();
        let mut i: usize = 0;
        while i < self.keys.len()
            invariant
                *self == *old(self),
                i <= self.keys@.len(),
                kept(self@, i as int) is Ok,
                kept(self@, i as int).unwrap().log == log@,
                kept(self@, i as int).unwrap().index =~= indexed(index@, keys@),
                kept(self@, i as int).unwrap().keys =~= names(keys@),
                forall|k: Seq<char>| #[trigger]
                    index@.contains_key(k) ==> holds(index@, keys@, k),
            decreases self.keys@.len() - i,
        {
            let key = self.keys[i].clone();
            assert(key@ == self@.keys[i as int]);
            let found = self.slot(&key);
            let taken = index.contains_key(key.as_str());
            proof {
                if kept(self@, i + 1) is Err {
                    lemma_kept_failed(self@, i + 1, self@.keys.len() as int);
                }
            }
            match found {
                Some((offset, _)) => if !taken {
                    let next = match decode(self.log.as_slice(), offset) {
                        Err(e) => return Err(e),
                        Ok(None) => return Err(
                            KvError::new(KvErrorKind::OffsetNotFound { offset }),
                        ),
                        Ok(Some((record, next))) => match value_of(record, offset) {
                            Err(e) => return Err(e),
                            Ok(_) => next,
                        },
                    };
                    let at = log.len();
                    let mut bytes = slice_to_vec(
                        slice_subrange(self.log.as_slice(), offset, next),
                    );
                    log.append(&mut bytes);
                    let place = keys.len();
                    keys.push(key.clone());
                    index.insert(key, (at, place));
                    proof {
                        let after = kept(self@, i + 1).unwrap();
                        assert(after.index =~= indexed(index@, keys@));
                        assert(after.keys =~= names(keys@));
                    }
                },
                None => {},
            }
            i += 1;
        }
        self.log = log;
        self.index = index;
        self.keys = keys;
        Ok(())
    }

    /// The bytes of the log.
    pub fn log(&self) -> (bytes: &Vec<u8>)
        ensures
            bytes@ == self@.log,
    {
        &self.log
    }

    /// The offset at which the index holds `key`, or `None` where it does not hold it.
    pub fn offset_of(&self, key: &str) -> (r: Option<usize>)
        ensures
            match r {
                Some(offset) => self@.index.get(key@) == Some(offset as int),
                None => self@.index.get(key@) is None,
            },
    {
        match self.slot(&String::from_str(key)) {
            Some(slot) => Some(slot.0),
            None => None,
        }
    }

    /// Whether the log is over the threshold, so that the next `set` compacts it.
    pub fn needs_compaction(&self) -> (b: bool)
        ensures
            b == (self@.log.len() > COMPACTION_THRESHOLD),
    {
        self.log.len() > COMPACTION_THRESHOLD
    }

    /// Sets the value of a key, overwriting the value it had.
    ///
    /// Where the log is longer than `COMPACTION_THRESHOLD`, compacts it first. Then appends a
    /// `Set` record and points the index at it. Fails as `compact` does, and with `Encode`
    /// where the key or the value cannot be encoded.
    pub fn set(&mut self, key: String, val: String) -> (r: Result<(), KvError>)
        ensures
            (final(self)@, r) == set_step(old(self)@, key@, val@),
            wf(old(self)@) ==> {
                &&& wf(final(self)@)
                &&& r is Ok ==> contents(final(self)@) == contents(old(self)@).insert(key@, val@)
                &&& r is Err ==> contents(final(self)@) == contents(old(self)@)
            },
    {
        proof {
            if wf(self@) {
                law_set(self@, key@, val@);
            }
        }
        if self.log.len() > COMPACTION_THRESHOLD {
            self.compact()?;
        }
        let ghost base = self@;
        let record = Record::Put { key, value: val };
        let offset = append(&mut self.log, &record)?;
        self.apply(record, offset);
        proof {
            let bytes = encoding(RecordView::Put { key: key@, value: val@ }).unwrap();
            assert(self@ =~= written(base, RecordView::Put { key: key@, value: val@ }, bytes));
        }
        Ok(())
    }

    /// Gets the value of a key, or `None` where the store does not hold the key.
    ///
    /// Fails where the index points at no `Set` record: with `OffsetNotFound` past the end of
    /// the log, with `CorruptRecord` at bytes that are no record, with `InvariantViolation`
    /// at a `Remove` record.
    pub fn get(&self, k: String) -> (r: Result<Option<String>, KvError>)
        ensures
            match lookup(self@, k@) {
                Ok(Some(value)) => r matches Ok(Some(x)) && x@ == value,
                Ok(None) => r == Ok::<Option<String>, KvError>(None),
                Err(e) => r == Err::<Option<String>, KvError>(e),
            },
            wf(self@) ==> match r {
                Ok(Some(x)) => contents(self@).get(k@) == Some(x@),
                Ok(None) => contents(self@).get(k@) is None,
                Err(_) => false,
            },
    {
        proof {
            if wf(self@) {
                law_get(self@, k@);
            }
        }
        let offset = match self.slot(&k) {
            None => return Ok(None),
            Some(slot) => slot.0,
        };
        match read_value(self.log.as_slice(), offset) {
            Ok(value) => Ok(Some(value)),
            Err(e) => Err(e),
        }
    }

    /// Removes a key.
    ///
    /// Fails with `KeyNotFound` where the store does not hold the key, and with `Encode` where
    /// the key cannot be encoded; the store is then left as it is. Otherwise appends a
    /// `Remove` record and takes the key out of the index.
    pub fn remove(&mut self, k: String) -> (r: Result<(), KvError>)
        ensures
            (final(self)@, r) == remove_step(old(self)@, k@),
            wf(old(self)@) ==> {
                &&& wf(final(self)@)
                &&& r is Ok ==> contents(final(self)@) == contents(old(self)@).remove(k@)
                &&& r is Err ==> final(self)@ == old(self)@
            },
    {
        proof {
            if wf(self@) {
                law_remove(self@, k@);
            }
        }
        if self.slot(&k).is_none() {
            return Err(KvError::new(KvErrorKind::KeyNotFound));
        }
        let ghost base = self@;
        let record = Record::Remove { key: k };
        let offset = append(&mut self.log, &record)?;
        self.apply(record, offset);
        proof {
            let bytes = encoding(RecordView::Remove { key: k@ }).unwrap();
            assert(self@ =~= written(base, RecordView::Remove { key: k@ }, bytes));
        }
        Ok(())
    }
}

} // verus!
