//! The errors that the store reports.

use vstd::prelude::*;
use vstd::string::StringExecFns;

verus! {

/// What went wrong.
#[derive(Debug, Clone, Copy, PartialEq, Eq)]
pub enum KvErrorKind {
    /// A key or a value could not be encoded.
    Encode,
    /// The bytes at `offset` are not the encoding of a record.
    CorruptRecord { offset: usize },
    /// No record begins at `offset`: it lies at or past the end of the log.
    OffsetNotFound { offset: usize },
    /// The key to remove is not in the store.
    KeyNotFound,
    /// The record at `offset`, where the index expects a `Set`, is a `Remove`.
    InvariantViolation { offset: usize },
}

/// An error of the store.
#[derive(Debug, Clone, Copy, PartialEq, Eq)]
pub struct KvError {
    pub kind: KvErrorKind,
}

/// The decimal digit `d`.
pub open spec fn digit(d: int) -> char {
    if d == 0 {
        '0'
    } else if d == 1 {
        '1'
    } else if d == 2 {
        '2'
    } else if d == 3 {
        '3'
    } else if d == 4 {
        '4'
    } else if d == 5 {
        '5'
    } else if d == 6 {
        '6'
    } else if d == 7 {
        '7'
    } else if d == 8 {
        '8'
    } else {
        '9'
    }
}

/// `n` in decimal, without leading zeros.
pub open spec fn decimal(n: nat) -> Seq<char>
    decreases n,
{
    if n < 10 {
        seq![digit(n as int)]
    } else {
        decimal(n / 10).push(digit((n % 10) as int))
    }
}

/// What `message` says of an error of the given kind.
pub open spec fn message_of(kind: KvErrorKind) -> Seq<char> {
    match kind {
        KvErrorKind::Encode => "record cannot be encoded"@,
        KvErrorKind::CorruptRecord { offset } => "corrupt record at the offset: "@ + decimal(
            offset as nat,
        ),
        KvErrorKind::OffsetNotFound { offset } => "value not found in the offset: "@ + decimal(
            offset as nat,
        ),
        KvErrorKind::KeyNotFound => "Key not found"@,
        KvErrorKind::InvariantViolation { offset } => "remove command at the offset: "@ + decimal(
            offset as nat,
        ),
    }
}

/// The decimal digit `d`, as a string.
fn digit_str(d: usize) -> (s: &'static str)
    requires
        d < 10,
    ensures
        s@ == seq![digit(d as int)],
{
    proof {
        reveal_strlit("0");
        reveal_strlit("1");
        reveal_strlit("2");
        reveal_strlit("3");
        reveal_strlit("4");
        reveal_strlit("5");
        reveal_strlit("6");
        reveal_strlit("7");
        reveal_strlit("8");
        reveal_strlit("9");
    }
    let s = if d == 0 {
        "0"
    } else if d == 1 {
        "1"
    } else if d == 2 {
        "2"
    } else if d == 3 {
        "3"
    } else if d == 4 {
        "4"
    } else if d == 5 {
        "5"
    } else if d == 6 {
        "6"
    } else if d == 7 {
        "7"
    } else if d == 8 {
        "8"
    } else {
        "9"
    };
    s
}

/// Writes `n` in decimal at the end of `out`.
fn push_decimal(out: &mut String, n: usize)
    ensures
        final(out)@ == old(out)@ + decimal(n as nat),
    decreases n,
{
    if n >= 10 {
        push_decimal(out, n / 10);
    }
    out.append(digit_str(n % 10));
}

impl KvError {
    /// The error of the given kind.
    pub open spec fn of(kind: KvErrorKind) -> KvError {
        KvError { kind }
    }

    /// The error in words.
    pub fn message(&self) -> (text: String)
        ensures
            text@ == message_of(self.kind),
    {
        match self.kind {
            KvErrorKind::Encode => String::from_str("record cannot be encoded"),
            KvErrorKind::CorruptRecord { offset } => {
                let mut text = String::from_str("corrupt record at the offset: ");
                push_decimal(&mut text, offset);
                text
            },
            KvErrorKind::OffsetNotFound { offset } => {
                let mut text = String::from_str("value not found in the offset: ");
                push_decimal(&mut text, offset);
                text
            },
            KvErrorKind::KeyNotFound => String::from_str("Key not found"),
            KvErrorKind::InvariantViolation { offset } => {
                let mut text = String::from_str("remove command at the offset: ");
                push_decimal(&mut text, offset);
                text
            },
        }
    }

    /// The error of the given kind.
    pub fn new(kind: KvErrorKind) -> (e: KvError)
        ensures
            e == KvError::of(kind),
    {
        KvError { kind }
    }
}

} // verus!
