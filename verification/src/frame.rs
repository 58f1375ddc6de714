//! The frame of a record: the bytes that stand around its string literals.
//!
//! A `Set` record is `{"Set":[K,V]}` and a `Remove` record is `{"Remove":K}`, where `K` and `V`
//! are JSON string literals. Records delimit themselves: a literal ends at the first quote
//! that no backslash escapes, and the frame closes right after it.

use vstd::prelude::*;

verus! {

/// `"`
pub const QUOTE: u8 = 0x22;

/// `\`
pub const BACKSLASH: u8 = 0x5c;

/// `,`
pub const COMMA: u8 = 0x2c;

/// `]`
pub const BRACKET_CLOSE: u8 = 0x5d;

/// `}`
pub const BRACE_CLOSE: u8 = 0x7d;

/// `{"Set":[`
pub open spec fn set_open() -> Seq<u8> {
    seq![0x7bu8, 0x22u8, 0x53u8, 0x65u8, 0x74u8, 0x22u8, 0x3au8, 0x5bu8]
}

/// `{"Remove":`
pub open spec fn remove_open() -> Seq<u8> {
    seq![0x7bu8, 0x22u8, 0x52u8, 0x65u8, 0x6du8, 0x6fu8, 0x76u8, 0x65u8, 0x22u8, 0x3au8]
}

/// The bytes of a `Set` record whose key and value have the literals `key` and `value`.
pub open spec fn put_frame(key: Seq<u8>, value: Seq<u8>) -> Seq<u8> {
    set_open() + key + seq![COMMA] + value + seq![BRACKET_CLOSE, BRACE_CLOSE]
}

/// The bytes of a `Remove` record whose key has the literal `key`.
pub open spec fn remove_frame(key: Seq<u8>) -> Seq<u8> {
    remove_open() + key + seq![BRACE_CLOSE]
}

/// Where the string literal whose body is being read at `i` ends: just past the first quote
/// that no backslash escapes. `None` where the text ends first.
pub open spec fn literal_close(text: Seq<u8>, i: int) -> Option<int>
    decreases text.len() - i,
{
    if i < 0 || i >= text.len() {
        None
    } else if text[i] == QUOTE {
        Some(i + 1)
    } else if text[i] == BACKSLASH {
        if i + 1 < text.len() {
            literal_close(text, i + 2)
        } else {
            None
        }
    } else {
        literal_close(text, i + 1)
    }
}

/// Where the string literal that opens at `start` ends, if one opens there.
pub open spec fn literal_end(text: Seq<u8>, start: int) -> Option<int> {
    if 0 <= start < text.len() && text[start] == QUOTE {
        literal_close(text, start + 1)
    } else {
        None
    }
}

/// Whether `text` is one string literal, from its first byte to its last.
pub open spec fn is_literal(text: Seq<u8>) -> bool {
    literal_end(text, 0) == Some(text.len() as int)
}

/// Whether `pattern` stands in `log` at `offset`.
pub open spec fn has_prefix(log: Seq<u8>, offset: int, pattern: Seq<u8>) -> bool {
    &&& 0 <= offset
    &&& offset + pattern.len() <= log.len()
    &&& log.subrange(offset, offset + pattern.len()) == pattern
}

/// A stretch of a log: the bytes from `start` up to `end`.
#[derive(Debug, Clone, Copy, PartialEq, Eq)]
pub struct Span {
    pub start: usize,
    pub end: usize,
}

/// What a `Span` stands for.
pub struct SpanView {
    pub start: int,
    pub end: int,
}

impl View for Span {
    type V = SpanView;

    open spec fn view(&self) -> SpanView {
        SpanView { start: self.start as int, end: self.end as int }
    }
}

impl SpanView {
    /// The bytes of the span.
    pub open spec fn of(self, log: Seq<u8>) -> Seq<u8> {
        log.subrange(self.start, self.end)
    }

    /// The span, `d` bytes further on.
    pub open spec fn shift(self, d: int) -> SpanView {
        SpanView { start: self.start + d, end: self.end + d }
    }
}

/// Where the parts of a record lie in a log: its literals, and the offset just past it.
#[derive(Debug, Clone, Copy, PartialEq, Eq)]
pub enum Frame {
    Put { key: Span, value: Span, next: usize },
    Remove { key: Span, next: usize },
}

/// What a `Frame` stands for.
pub enum FrameView {
    Put { key: SpanView, value: SpanView, next: int },
    Remove { key: SpanView, next: int },
}

impl View for Frame {
    type V = FrameView;

    open spec fn view(&self) -> FrameView {
        match self {
            Frame::Put { key, value, next } => FrameView::Put {
                key: key@,
                value: value@,
                next: *next as int,
            },
            Frame::Remove { key, next } => FrameView::Remove { key: key@, next: *next as int },
        }
    }
}

impl FrameView {
    /// The offset just past the record.
    pub open spec fn next(self) -> int {
        match self {
            FrameView::Put { next, .. } => next,
            FrameView::Remove { next, .. } => next,
        }
    }

    /// The frame, `d` bytes further on.
    pub open spec fn shift(self, d: int) -> FrameView {
        match self {
            FrameView::Put { key, value, next } => FrameView::Put {
                key: key.shift(d),
                value: value.shift(d),
                next: next + d,
            },
            FrameView::Remove { key, next } => FrameView::Remove {
                key: key.shift(d),
                next: next + d,
            },
        }
    }
}

/// The frame of the `Set` record whose key literal opens at `start`.
pub open spec fn put_frame_at(log: Seq<u8>, start: int) -> Option<FrameView> {
    match literal_end(log, start) {
        Some(a) => if a < log.len() && log[a] == COMMA {
            match literal_end(log, a + 1) {
                Some(b) => if b + 2 <= log.len() && log[b] == BRACKET_CLOSE && log[b + 1]
                    == BRACE_CLOSE {
                    Some(
                        FrameView::Put {
                            key: SpanView { start, end: a },
                            value: SpanView { start: a + 1, end: b },
                            next: b + 2,
                        },
                    )
                } else {
                    None
                },
                None => None,
            }
        } else {
            None
        },
        None => None,
    }
}

/// The frame of the `Remove` record whose key literal opens at `start`.
pub open spec fn remove_frame_at(log: Seq<u8>, start: int) -> Option<FrameView> {
    match literal_end(log, start) {
        Some(a) => if a < log.len() && log[a] == BRACE_CLOSE {
            Some(FrameView::Remove { key: SpanView { start, end: a }, next: a + 1 })
        } else {
            None
        },
        None => None,
    }
}

/// The frame of the record that begins at `offset`, or `None` where no frame stands there.
pub open spec fn frame_at(log: Seq<u8>, offset: int) -> Option<FrameView> {
    if has_prefix(log, offset, set_open()) {
        put_frame_at(log, offset + 8)
    } else if has_prefix(log, offset, remove_open()) {
        remove_frame_at(log, offset + 10)
    } else {
        None
    }
}

/// Whether `pattern` stands in `log` at `offset`.
fn starts_with(log: &[u8], offset: usize, pattern: &[u8]) -> (b: bool)
    ensures
        b == has_prefix(log@, offset as int, pattern@),
{
    if offset > log.len() || pattern.len() > log.len() - offset {
        return false;
    }
    let mut i: usize = 0;
    while i < pattern.len()
        invariant
            i <= pattern@.len(),
            offset + pattern@.len() <= log@.len() <= usize::MAX,
            forall|j: int| 0 <= j < i ==> log@[offset + j] == pattern@[j],
        decreases pattern.len() - i,
    {
        if log[offset + i] != pattern[i] {
            assert(log@.subrange(offset as int, offset + pattern@.len())[i as int]
                != pattern@[i as int]);
            return false;
        }
        i += 1;
    }
    assert(log@.subrange(offset as int, offset + pattern@.len()) =~= pattern@);
    true
}

/// Finds the end of the string literal that opens at `start`.
pub fn find_literal_end(log: &[u8], start: usize) -> (r: Option<usize>)
    ensures
        match literal_end(log@, start as int) {
            Some(end) => r matches Some(e) && e == end && start + 2 <= end <= log@.len(),
            None => r is None,
        },
{
    if start >= log.len() || log[start] != QUOTE {
        return None;
    }
    let mut i: usize = start + 1;
    while i < log.len()
        invariant
            start < i <= log@.len(),
            literal_end(log@, start as int) == literal_close(log@, i as int),
        decreases log.len() - i,
    {
        let byte: u8 = log[i];
        if byte == QUOTE {
            return Some(i + 1);
        } else if byte == BACKSLASH {
            if log.len() - i < 2 {
                return None;
            }
            i += 2;
        } else {
            i += 1;
        }
    }
    None
}

/// Whether `text` is one string literal, from its first byte to its last.
pub fn whole_literal(text: &[u8]) -> (b: bool)
    ensures
        b == is_literal(text@),
{
    match find_literal_end(text, 0) {
        Some(end) => end == text.len(),
        None => false,
    }
}

/// Writes a `Set` record around the literals of its key and its value.
pub fn frame_put(key: &[u8], value: &[u8]) -> (out: Vec<u8>)
    ensures
        out@ == put_frame(key@, value@),
{
    let mut out: Vec<u8> = vec![0x7bu8, 0x22u8, 0x53u8, 0x65u8, 0x74u8, 0x22u8, 0x3au8, 0x5bu8];
    let mut k = vstd::slice::slice_to_vec(key);
    let mut v = vstd::slice::slice_to_vec(value);
    out.append(&mut k);
    out.push(COMMA);
    out.append(&mut v);
    out.push(BRACKET_CLOSE);
    out.push(BRACE_CLOSE);
    out
}

/// Writes a `Remove` record around the literal of its key.
pub fn frame_remove(key: &[u8]) -> (out: Vec<u8>)
    ensures
        out@ == remove_frame(key@),
{
    let mut out: Vec<u8> = vec![
        0x7bu8,
        0x22u8,
        0x52u8,
        0x65u8,
        0x6du8,
        0x6fu8,
        0x76u8,
        0x65u8,
        0x22u8,
        0x3au8,
    ];
    let mut k = vstd::slice::slice_to_vec(key);
    out.append(&mut k);
    out.push(BRACE_CLOSE);
    out
}

/// Finds the frame of the record that begins at `offset`.
pub fn frame(log: &[u8], offset: usize) -> (r: Option<Frame>)
    ensures
        match frame_at(log@, offset as int) {
            Some(f) => r matches Some(x) && x@ == f,
            None => r is None,
        },
{
    let set_tag: [u8; 8] = [0x7bu8, 0x22u8, 0x53u8, 0x65u8, 0x74u8, 0x22u8, 0x3au8, 0x5bu8];
    let remove_tag: [u8; 10] = [
        0x7bu8,
        0x22u8,
        0x52u8,
        0x65u8,
        0x6du8,
        0x6fu8,
        0x76u8,
        0x65u8,
        0x22u8,
        0x3au8,
    ];
    let len = log.len();
    if starts_with(log, offset, set_tag.as_slice()) {
        let start = offset + 8;
        let a = match find_literal_end(log, start) {
            Some(end) => end,
            None => return None,
        };
        if a >= len || log[a] != COMMA {
            return None;
        }
        let b = match find_literal_end(log, a + 1) {
            Some(end) => end,
            None => return None,
        };
        if len - b < 2 || log[b] != BRACKET_CLOSE || log[b + 1] != BRACE_CLOSE {
            return None;
        }
        Some(
            Frame::Put {
                key: Span { start, end: a },
                value: Span { start: a + 1, end: b },
                next: b + 2,
            },
        )
    } else if starts_with(log, offset, remove_tag.as_slice()) {
        let start = offset + 10;
        let a = match find_literal_end(log, start) {
            Some(end) => end,
            None => return None,
        };
        if a >= len || log[a] != BRACE_CLOSE {
            return None;
        }
        Some(Frame::Remove { key: Span { start, end: a }, next: a + 1 })
    } else {
        None
    }
}

/// Whether `b` holds at `j` the `n` bytes that `a` holds at `i`.
pub open spec fn same_window(a: Seq<u8>, i: int, b: Seq<u8>, j: int, n: int) -> bool {
    &&& 0 <= i
    &&& 0 <= j
    &&& 0 <= n
    &&& i + n <= a.len()
    &&& j + n <= b.len()
    &&& a.subrange(i, i + n) == b.subrange(j, j + n)
}

/// The two windows of `same_window` agree byte by byte.
pub proof fn lemma_window_at(a: Seq<u8>, i: int, b: Seq<u8>, j: int, n: int, k: int)
    requires
        same_window(a, i, b, j, n),
        0 <= k < n,
    ensures
        a[i + k] == b[j + k],
{
    assert(a.subrange(i, i + n)[k] == b.subrange(j, j + n)[k]);
}

/// A window of `same_window`, narrowed to the `m` bytes that begin `d` bytes further in.
pub proof fn lemma_window_part(a: Seq<u8>, i: int, b: Seq<u8>, j: int, n: int, d: int, m: int)
    requires
        same_window(a, i, b, j, n),
        0 <= d,
        0 <= m,
        d + m <= n,
    ensures
        same_window(a, i + d, b, j + d, m),
{
    let x = a.subrange(i + d, i + d + m);
    let y = b.subrange(j + d, j + d + m);
    assert forall|k: int| 0 <= k < m implies #[trigger] x[k] == y[k] by {
        lemma_window_at(a, i, b, j, n, d + k);
    }
    assert(x =~= y);
}

/// A literal's body ends inside the text, past where it is read.
pub proof fn lemma_literal_close_bounds(text: Seq<u8>, i: int)
    requires
        literal_close(text, i) is Some,
    ensures
        i < literal_close(text, i).unwrap() <= text.len(),
    decreases text.len() - i,
{
    if text[i] == QUOTE {
    } else if text[i] == BACKSLASH {
        lemma_literal_close_bounds(text, i + 2);
    } else {
        lemma_literal_close_bounds(text, i + 1);
    }
}

/// Where a literal's body ends depends on the bytes up to that end alone.
pub proof fn lemma_literal_close_window(a: Seq<u8>, i: int, b: Seq<u8>, j: int, n: int)
    requires
        same_window(a, i, b, j, n),
        literal_close(a, i) is Some,
        literal_close(a, i).unwrap() <= i + n,
    ensures
        literal_close(b, j) == Some(literal_close(a, i).unwrap() - i + j),
    decreases n,
{
    lemma_literal_close_bounds(a, i);
    lemma_window_at(a, i, b, j, n, 0);
    if a[i] == QUOTE {
    } else if a[i] == BACKSLASH {
        lemma_literal_close_bounds(a, i + 2);
        lemma_window_part(a, i, b, j, n, 2, n - 2);
        lemma_literal_close_window(a, i + 2, b, j + 2, n - 2);
    } else {
        lemma_literal_close_bounds(a, i + 1);
        lemma_window_part(a, i, b, j, n, 1, n - 1);
        lemma_literal_close_window(a, i + 1, b, j + 1, n - 1);
    }
}

/// A literal is at least its two quotes, and ends inside the text.
pub proof fn lemma_literal_end_bounds(text: Seq<u8>, start: int)
    requires
        literal_end(text, start) is Some,
    ensures
        0 <= start,
        start + 2 <= literal_end(text, start).unwrap() <= text.len(),
{
    lemma_literal_close_bounds(text, start + 1);
}

/// Where a literal ends depends on its own bytes alone.
pub proof fn lemma_literal_end_window(a: Seq<u8>, i: int, b: Seq<u8>, j: int, n: int)
    requires
        same_window(a, i, b, j, n),
        literal_end(a, i) is Some,
        literal_end(a, i).unwrap() <= i + n,
    ensures
        literal_end(b, j) == Some(literal_end(a, i).unwrap() - i + j),
{
    lemma_literal_end_bounds(a, i);
    lemma_window_at(a, i, b, j, n, 0);
    lemma_window_part(a, i, b, j, n, 1, n - 1);
    lemma_literal_close_window(a, i + 1, b, j + 1, n - 1);
}

/// A pattern found in one window stands in the other too.
pub proof fn lemma_has_prefix_window(
    a: Seq<u8>,
    i: int,
    b: Seq<u8>,
    j: int,
    n: int,
    pattern: Seq<u8>,
)
    requires
        same_window(a, i, b, j, n),
        pattern.len() <= n,
    ensures
        has_prefix(a, i, pattern) == has_prefix(b, j, pattern),
{
    lemma_window_part(a, i, b, j, n, 0, pattern.len() as int);
}

/// Whether a span is at least two bytes long and lies between `from` and `to`.
pub open spec fn span_within(span: SpanView, from: int, to: int) -> bool {
    from <= span.start && span.start + 2 <= span.end <= to
}

/// A frame begins at its offset and ends inside the log, with its literals between.
pub proof fn lemma_frame_bounds(log: Seq<u8>, offset: int)
    requires
        frame_at(log, offset) is Some,
    ensures
        0 <= offset < frame_at(log, offset).unwrap().next() <= log.len(),
        match frame_at(log, offset).unwrap() {
            FrameView::Put { key, value, next } => span_within(key, offset, value.start)
                && span_within(value, offset, next),
            FrameView::Remove { key, next } => span_within(key, offset, next),
        },
{
    if has_prefix(log, offset, set_open()) {
        lemma_literal_end_bounds(log, offset + 8);
        let a = literal_end(log, offset + 8).unwrap();
        lemma_literal_end_bounds(log, a + 1);
    } else {
        lemma_literal_end_bounds(log, offset + 10);
    }
}

/// Framing is local: a frame is found from the record's own bytes, wherever they stand.
pub proof fn lemma_frame_window(a: Seq<u8>, i: int, b: Seq<u8>, j: int)
    requires
        frame_at(a, i) is Some,
        same_window(a, i, b, j, frame_at(a, i).unwrap().next() - i),
    ensures
        frame_at(b, j) == Some(frame_at(a, i).unwrap().shift(j - i)),
{
    lemma_frame_bounds(a, i);
    let n = frame_at(a, i).unwrap().next() - i;
    if has_prefix(a, i, set_open()) {
        let p = literal_end(a, i + 8).unwrap();
        let q = literal_end(a, p + 1).unwrap();
        lemma_literal_end_bounds(a, i + 8);
        lemma_literal_end_bounds(a, p + 1);
        lemma_has_prefix_window(a, i, b, j, n, set_open());
        lemma_window_part(a, i, b, j, n, 8, n - 8);
        lemma_literal_end_window(a, i + 8, b, j + 8, n - 8);
        lemma_window_at(a, i, b, j, n, p - i);
        lemma_window_part(a, i, b, j, n, p + 1 - i, n - (p + 1 - i));
        lemma_literal_end_window(a, p + 1, b, p + 1 - i + j, n - (p + 1 - i));
        lemma_window_at(a, i, b, j, n, q - i);
        lemma_window_at(a, i, b, j, n, q + 1 - i);
    } else {
        let p = literal_end(a, i + 10).unwrap();
        lemma_literal_end_bounds(a, i + 10);
        lemma_has_prefix_window(a, i, b, j, n, set_open());
        lemma_has_prefix_window(a, i, b, j, n, remove_open());
        lemma_window_part(a, i, b, j, n, 10, n - 10);
        lemma_literal_end_window(a, i + 10, b, j + 10, n - 10);
        lemma_window_at(a, i, b, j, n, p - i);
    }
}

/// The frame of a `Set` record written around two literals: the literals are where they
/// were put, and the record ends with the bytes.
pub proof fn lemma_frame_of_put(key: Seq<u8>, value: Seq<u8>)
    requires
        is_literal(key),
        is_literal(value),
    ensures
        frame_at(put_frame(key, value), 0) == Some(
            FrameView::Put {
                key: SpanView { start: 8, end: 8 + key.len() as int },
                value: SpanView {
                    start: 9 + key.len() as int,
                    end: 9 + key.len() as int + value.len() as int,
                },
                next: put_frame(key, value).len() as int,
            },
        ),
        put_frame(key, value).subrange(8, 8 + key.len() as int) == key,
        put_frame(key, value).subrange(
            9 + key.len() as int,
            9 + key.len() as int + value.len() as int,
        ) == value,
{
    let e = put_frame(key, value);
    let p = 8 + key.len() as int;
    let q = p + 1 + value.len() as int;
    lemma_literal_end_bounds(key, 0);
    lemma_literal_end_bounds(value, 0);
    assert(e.subrange(0, 8) =~= set_open());
    assert(e.subrange(8, p) =~= key);
    assert(e.subrange(p + 1, q) =~= value);
    assert(key.subrange(0, key.len() as int) =~= key);
    assert(value.subrange(0, value.len() as int) =~= value);
    lemma_literal_end_window(key, 0, e, 8, key.len() as int);
    lemma_literal_end_window(value, 0, e, p + 1, value.len() as int);
}

/// The frame of a `Remove` record written around a literal: the literal is where it was
/// put, and the record ends with the bytes.
pub proof fn lemma_frame_of_remove(key: Seq<u8>)
    requires
        is_literal(key),
    ensures
        frame_at(remove_frame(key), 0) == Some(
            FrameView::Remove {
                key: SpanView { start: 10, end: 10 + key.len() as int },
                next: remove_frame(key).len() as int,
            },
        ),
        remove_frame(key).subrange(10, 10 + key.len() as int) == key,
{
    let e = remove_frame(key);
    let p = 10 + key.len() as int;
    lemma_literal_end_bounds(key, 0);
    assert(e.subrange(0, 10) =~= remove_open());
    assert(e.subrange(10, p) =~= key);
    assert(key.subrange(0, key.len() as int) =~= key);
    lemma_literal_end_window(key, 0, e, 10, key.len() as int);
}

} // verus!
