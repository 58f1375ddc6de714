//! The records of the command log: frames whose literals are written and read by `serde_json`.

use vstd::prelude::*;
use vstd::slice::slice_subrange;
use crate::error::{KvError, KvErrorKind};
use crate::frame::{
    frame, frame_at, frame_put, frame_remove, is_literal, lemma_frame_bounds, lemma_frame_of_put,
    lemma_frame_of_remove, lemma_frame_window, lemma_window_part, put_frame, remove_frame,
    same_window, whole_literal, Frame, FrameView, Span,
};
use crate::json::{from_json, json_string, json_text, to_json};

verus! {

/// A command of the log.
#[derive(Debug, PartialEq, Eq)]
pub enum Record {
    /// Gives `key` the value `value`; in the log, a `Set` record.
    Put { key: String, value: String },
    /// Takes `key` out; in the log, a `Remove` record.
    Remove { key: String },
}

/// What a `Record` stands for.
pub enum RecordView {
    Put { key: Seq<char>, value: Seq<char> },
    Remove { key: Seq<char> },
}

impl View for Record {
    type V = RecordView;

    open spec fn view(&self) -> RecordView {
        match self {
            Record::Put { key, value } => RecordView::Put { key: key@, value: value@ },
            Record::Remove { key } => RecordView::Remove { key: key@ },
        }
    }
}

impl RecordView {
    /// The key that the record is about.
    pub open spec fn key(self) -> Seq<char> {
        match self {
            RecordView::Put { key, .. } => key,
            RecordView::Remove { key } => key,
        }
    }
}

/// The literal that stands for `s` in a record, given the JSON text `text` written for `s`
/// and the string `back` read from that text: the text, provided that it is one whole
/// literal and reads back as `s`.
pub open spec fn checked_literal(
    s: Seq<char>,
    text: Option<Seq<u8>>,
    back: Option<Seq<char>>,
) -> Option<Seq<u8>> {
    match text {
        Some(t) => if is_literal(t) && back == Some(s) {
            Some(t)
        } else {
            None
        },
        None => None,
    }
}

/// What reading the text `text` gives, where there is a text to read.
pub open spec fn read_back(text: Option<Seq<u8>>) -> Option<Seq<char>> {
    match text {
        Some(t) => json_string(t),
        None => None,
    }
}

/// The literal that stands for `s` in a record, or `None` where `s` has none.
pub open spec fn literal(s: Seq<char>) -> Option<Seq<u8>> {
    checked_literal(s, json_text(s), read_back(json_text(s)))
}

/// The bytes of a record, or `None` where its key or its value has no literal.
pub open spec fn encoding(record: RecordView) -> Option<Seq<u8>> {
    match record {
        RecordView::Put { key, value } => match (literal(key), literal(value)) {
            (Some(k), Some(v)) => Some(put_frame(k, v)),
            _ => None,
        },
        RecordView::Remove { key } => match literal(key) {
            Some(k) => Some(remove_frame(k)),
            None => None,
        },
    }
}

/// The record that a frame holds, given the strings read from its literals: the key, and
/// for a `Set` record the value. `None` where a literal gave no string.
pub open spec fn record_of(
    frame: FrameView,
    key: Option<Seq<char>>,
    value: Option<Seq<char>>,
) -> Option<RecordView> {
    match frame {
        FrameView::Put { .. } => match (key, value) {
            (Some(k), Some(v)) => Some(RecordView::Put { key: k, value: v }),
            _ => None,
        },
        FrameView::Remove { .. } => match key {
            Some(k) => Some(RecordView::Remove { key: k }),
            None => None,
        },
    }
}

/// The record that stands in `log` within `frame`.
pub open spec fn record_in(log: Seq<u8>, frame: FrameView) -> Option<RecordView> {
    match frame {
        FrameView::Put { key, value, .. } => record_of(
            frame,
            json_string(key.of(log)),
            json_string(value.of(log)),
        ),
        FrameView::Remove { key, .. } => record_of(frame, json_string(key.of(log)), None),
    }
}

/// What stands in a log at an offset.
pub enum Decoded {
    /// Nothing: the offset is at or past the end of the log.
    End,
    /// Bytes that are not a record.
    Corrupt,
    /// A record, and the offset at which the next one begins.
    Record { record: RecordView, next: int },
}

/// What stands in `log` at `offset`.
pub open spec fn decode_at(log: Seq<u8>, offset: int) -> Decoded {
    if offset < 0 || offset >= log.len() {
        Decoded::End
    } else {
        match frame_at(log, offset) {
            Some(frame) => match record_in(log, frame) {
                Some(record) => Decoded::Record { record, next: frame.next() },
                None => Decoded::Corrupt,
            },
            None => Decoded::Corrupt,
        }
    }
}

/// Accepts the JSON text `text`, written for `s`, as the literal of `s` in a record,
/// provided that it is one whole literal and that `back`, read from it, is `s` again.
pub fn accept_literal(s: &String, text: Option<Vec<u8>>, back: Option<String>) -> (r: Option<
    Vec<u8>,
>)
    ensures
        match checked_literal(
            s@,
            match text {
                Some(t) => Some(t@),
                None => None,
            },
            match back {
                Some(b) => Some(b@),
                None => None,
            },
        ) {
            Some(literal) => r matches Some(v) && v@ == literal,
            None => r is None,
        },
{
    match (text, back) {
        (Some(text), Some(back)) => if whole_literal(text.as_slice()) && back == *s {
            Some(text)
        } else {
            None
        },
        _ => None,
    }
}

/// Writes the literal of `s`.
fn write_string(s: &String) -> (r: Option<Vec<u8>>)
    ensures
        match literal(s@) {
            Some(text) => r matches Some(v) && v@ == text,
            None => r is None,
        },
{
    let text = match to_json(s.as_str()) {
        Ok(text) => Some(text),
        Err(_) => None,
    };
    let back = match &text {
        Some(t) => match from_json(t.as_slice()) {
            Ok(back) => Some(back),
            Err(_) => None,
        },
        None => None,
    };
    accept_literal(s, text, back)
}

/// Reads the string whose literal is the stretch `span` of `log`.
fn read_string(log: &[u8], span: Span) -> (r: Option<String>)
    requires
        span.start <= span.end <= log@.len(),
    ensures
        match json_string(span@.of(log@)) {
            Some(s) => r matches Some(x) && x@ == s,
            None => r is None,
        },
{
    match from_json(slice_subrange(log, span.start, span.end)) {
        Ok(s) => Some(s),
        Err(_) => None,
    }
}

/// Makes the record that a frame holds from the strings read from its literals.
pub fn assemble(frame: Frame, key: Option<String>, value: Option<String>) -> (r: Option<Record>)
    ensures
        match record_of(
            frame@,
            match key {
                Some(k) => Some(k@),
                None => None,
            },
            match value {
                Some(v) => Some(v@),
                None => None,
            },
        ) {
            Some(record) => r matches Some(x) && x@ == record,
            None => r is None,
        },
{
    match frame {
        Frame::Put { .. } => match (key, value) {
            (Some(key), Some(value)) => Some(Record::Put { key, value }),
            _ => None,
        },
        Frame::Remove { .. } => match key {
            Some(key) => Some(Record::Remove { key }),
            None => None,
        },
    }
}

/// Encodes a record.
///
/// Fails with `Encode` where the key or the value has no literal.
pub fn encode(record: &Record) -> (r: Result<Vec<u8>, KvError>)
    ensures
        match encoding(record@) {
            Some(bytes) => r matches Ok(v) && v@ == bytes,
            None => r == Err::<Vec<u8>, KvError>(KvError::of(KvErrorKind::Encode)),
        },
{
    match record {
        Record::Put { key, value } => {
            match (write_string(key), write_string(value)) {
                (Some(k), Some(v)) => Ok(frame_put(k.as_slice(), v.as_slice())),
                _ => Err(KvError::new(KvErrorKind::Encode)),
            }
        },
        Record::Remove { key } => {
            match write_string(key) {
                Some(k) => Ok(frame_remove(k.as_slice())),
                None => Err(KvError::new(KvErrorKind::Encode)),
            }
        },
    }
}

/// Decodes the record that begins at `offset`, and tells where the next one begins.
///
/// Returns `Ok(None)` at the end of the log, and fails with `CorruptRecord` where the bytes
/// at `offset` are not a record.
pub fn decode(log: &[u8], offset: usize) -> (r: Result<Option<(Record, usize)>, KvError>)
    ensures
        match decode_at(log@, offset as int) {
            Decoded::End => r == Ok::<Option<(Record, usize)>, KvError>(None),
            Decoded::Corrupt => r == Err::<Option<(Record, usize)>, KvError>(
                KvError::of(KvErrorKind::CorruptRecord { offset }),
            ),
            Decoded::Record { record, next } => r matches Ok(Some((x, n))) && x@ == record && n
                == next && offset < next <= log@.len(),
        },
{
    if offset >= log.len() {
        return Ok(None);
    }
    let found = match frame(log, offset) {
        Some(found) => found,
        None => return Err(KvError::new(KvErrorKind::CorruptRecord { offset })),
    };
    proof {
        lemma_frame_bounds(log@, offset as int);
    }
    let (record, next) = match found {
        Frame::Put { key, value, next } => {
            let k = read_string(log, key);
            let v = read_string(log, value);
            (assemble(found, k, v), next)
        },
        Frame::Remove { key, next } => {
            let k = read_string(log, key);
            (assemble(found, k, None), next)
        },
    };
    match record {
        Some(record) => Ok(Some((record, next))),
        None => Err(KvError::new(KvErrorKind::CorruptRecord { offset })),
    }
}

/// A record ends inside the log, past where it begins.
pub proof fn lemma_decode_bounds(log: Seq<u8>, offset: int)
    requires
        decode_at(log, offset) is Record,
    ensures
        0 <= offset < decode_at(log, offset)->next <= log.len(),
{
    lemma_frame_bounds(log, offset);
}

/// Decoding is local: a record is decoded from its own bytes, wherever they stand.
pub proof fn lemma_decode_window(a: Seq<u8>, i: int, b: Seq<u8>, j: int)
    requires
        decode_at(a, i) is Record,
        same_window(a, i, b, j, decode_at(a, i)->next - i),
    ensures
        decode_at(b, j) == (Decoded::Record {
            record: decode_at(a, i)->record,
            next: decode_at(a, i)->next - i + j,
        }),
{
    lemma_frame_bounds(a, i);
    lemma_frame_window(a, i, b, j);
    let n = decode_at(a, i)->next - i;
    match frame_at(a, i).unwrap() {
        FrameView::Put { key, value, next } => {
            lemma_window_part(a, i, b, j, n, key.start - i, key.end - key.start);
            lemma_window_part(a, i, b, j, n, value.start - i, value.end - value.start);
        },
        FrameView::Remove { key, next } => {
            lemma_window_part(a, i, b, j, n, key.start - i, key.end - key.start);
        },
    }
}

/// A record that stands in a log stands in every log that continues it.
pub proof fn lemma_decode_extends(log: Seq<u8>, offset: int, more: Seq<u8>)
    requires
        decode_at(log, offset) is Record,
    ensures
        decode_at(log + more, offset) == decode_at(log, offset),
{
    lemma_decode_bounds(log, offset);
    let n = decode_at(log, offset)->next - offset;
    assert(log.subrange(offset, offset + n) =~= (log + more).subrange(offset, offset + n));
    lemma_decode_window(log, offset, log + more, offset);
}

/// Round trip: what `encoding` writes for a record decodes as that record, whatever stands
/// before and after it.
pub proof fn lemma_decode_encoding(before: Seq<u8>, record: RecordView, after: Seq<u8>)
    requires
        encoding(record) is Some,
    ensures
        decode_at(before + encoding(record).unwrap() + after, before.len() as int) == (
        Decoded::Record {
            record,
            next: (before.len() + encoding(record).unwrap().len()) as int,
        }),
{
    let e = encoding(record).unwrap();
    match record {
        RecordView::Put { key, value } => {
            lemma_frame_of_put(literal(key).unwrap(), literal(value).unwrap());
        },
        RecordView::Remove { key } => {
            lemma_frame_of_remove(literal(key).unwrap());
        },
    }
    lemma_frame_bounds(e, 0);
    let whole = before + e + after;
    assert(e.subrange(0, e.len() as int) =~= whole.subrange(
        before.len() as int,
        (before.len() + e.len()) as int,
    ));
    lemma_decode_window(e, 0, whole, before.len() as int);
}

} // verus!
