//! Parse errors: where each was raised, of what kind, and the text that
//! explains them.

use vstd::prelude::*;
use vstd::utf8::{char_is_scalar, encode_utf8};
use crate::text::chars_of;

verus! {

/// The failures of the grammar's own building blocks.
#[derive(Clone, Copy, PartialEq, Eq, Debug)]
pub enum SyntaxKind {
    /// A run that had to hold at least one character was empty.
    TakeWhile1,
    /// A run of characters outside a set was empty.
    IsNot,
    /// Text was empty where it had to hold something.
    Eof,
    /// No alternative matched.
    Alt,
    /// A repeated rule matched without reading anything.
    Many0,
}

#[derive(Debug)]
pub enum ErrorKind {
    Syntax(SyntaxKind),
    Char(char),
    Context(String),
    Custom(String),
}

impl ErrorKind {
    pub fn custom(message: String) -> (r: Self)
        ensures
            r == ErrorKind::Custom(message),
    {
        ErrorKind::Custom(message)
    }
}

/// An error and the positions it was raised at, innermost first. A position
/// counts characters from the start of the input.
#[derive(Debug)]
pub struct Error {
    pub errors: Vec<(usize, ErrorKind)>,
    pub message: Option<String>,
    pub notes: Vec<String>,
    pub help: Option<String>,
}

/// A failed parse: a recoverable one lets an enclosing choice try its next
/// alternative; a fatal one ends the whole parse.
#[derive(Debug)]
pub enum ParseError {
    Recoverable(Error),
    Fatal(Error),
}

impl Default for Error {
    fn default() -> (r: Self)
        ensures
            r.errors@.len() == 0,
            r.message is None,
            r.notes@.len() == 0,
            r.help is None,
    {
        Error { errors: Vec::new(), message: None, notes: Vec::new(), help: None }
    }
}

/// What a report shows besides the spans.
#[derive(Debug)]
pub struct ReportInfo {
    pub message: Option<String>,
    pub notes: Vec<String>,
    pub help: Option<String>,
}

/// How many bytes the UTF-8 encoding of `c` takes, by the range of its code
/// point.
pub open spec fn utf8_width(c: char) -> nat {
    let u = c as u32;
    if u <= 0x7F {
        1
    } else if u <= 0x7FF {
        2
    } else if u <= 0xFFFF {
        3
    } else {
        4
    }
}

/// How many bytes the UTF-8 encoding of `s` takes.
pub open spec fn utf8_len(s: Seq<char>) -> nat
    decreases s.len(),
{
    if s.len() == 0 {
        0
    } else {
        utf8_width(s[0]) + utf8_len(s.drop_first())
    }
}

/// The byte offset, in the UTF-8 encoding of `s`, of its character `i`.
pub open spec fn byte_offset(s: Seq<char>, i: int) -> nat {
    utf8_len(s.subrange(0, i))
}

/// Whether every error of `e` was raised at a position within `0..=n`.
pub open spec fn positions_within(e: Error, n: int) -> bool {
    forall|i: int| 0 <= i < e.errors@.len() ==> #[trigger] e.errors@[i].0 <= n
}

pub proof fn lemma_utf8_len_concat(a: Seq<char>, b: Seq<char>)
    ensures
        utf8_len(a + b) == utf8_len(a) + utf8_len(b),
    decreases a.len(),
{
    if a.len() == 0 {
        assert(a + b == b);
    } else {
        assert((a + b).drop_first() == a.drop_first() + b);
        assert((a + b)[0] == a[0]);
        lemma_utf8_len_concat(a.drop_first(), b);
    }
}

/// `utf8_len` is the length of vstd's UTF-8 encoding.
pub proof fn lemma_utf8_len_encode(s: Seq<char>)
    ensures
        utf8_len(s) == encode_utf8(s).len(),
    decreases s.len(),
{
    if s.len() > 0 {
        char_is_scalar(s[0]);
        lemma_utf8_len_encode(s.drop_first());
    }
}

/// The offsets of successive characters grow by each one's width, and none
/// passes the encoding's length.
pub proof fn lemma_byte_offset_step(s: Seq<char>, i: int)
    requires
        0 <= i < s.len(),
    ensures
        byte_offset(s, i + 1) == byte_offset(s, i) + utf8_width(s[i]),
        byte_offset(s, i + 1) <= utf8_len(s),
{
    let c = seq![s[i]];
    assert(s.subrange(0, i + 1) == s.subrange(0, i) + c);
    lemma_utf8_len_concat(s.subrange(0, i), c);
    assert(c.drop_first() == Seq::<char>::empty());
    assert(c[0] == s[i]);
    assert(utf8_len(Seq::<char>::empty()) == 0);
    assert(utf8_len(c) == utf8_width(s[i]));
    assert(s == s.subrange(0, i + 1) + s.subrange(i + 1, s.len() as int));
    lemma_utf8_len_concat(s.subrange(0, i + 1), s.subrange(i + 1, s.len() as int));
}

/// The byte offset of each character position of `main`, and of its end.
fn byte_offsets(main: &str) -> (r: Vec<usize>)
    ensures
        r@.len() == main@.len() + 1,
        forall|i: int| 0 <= i <= main@.len() ==> #[trigger] r@[i] == byte_offset(main@, i),
{
    let cs = chars_of(main);
    let total = main.as_bytes().len();
    proof {
        lemma_utf8_len_encode(main@);
        assert(main@.subrange(0, 0) == Seq::<char>::empty());
    }
    let mut r: Vec<usize> = Vec::new();
    r.push(0);
    let mut at: usize = 0;
    let mut i: usize = 0;
    while i < cs.len()
        invariant
            cs@ == main@,
            total == utf8_len(main@),
            i <= cs.len(),
            r@.len() == i + 1,
            at == byte_offset(main@, i as int),
            forall|k: int| 0 <= k <= i ==> #[trigger] r@[k] == byte_offset(main@, k),
        decreases cs.len() - i,
    {
        proof {
            lemma_byte_offset_step(main@, i as int);
        }
        let u = cs[i] as u32;
        let w: usize = if u <= 0x7F {
            1
        } else if u <= 0x7FF {
            2
        } else if u <= 0xFFFF {
            3
        } else {
            4
        };
        at = at + w;
        r.push(at);
        i = i + 1;
    }
    r
}

impl Error {
    pub fn single(input: usize, error: ErrorKind) -> (r: Self)
        ensures
            r.errors@ == seq![(input, error)],
            r.message is None,
            r.notes@.len() == 0,
            r.help is None,
    {
        let mut errors: Vec<(usize, ErrorKind)> = Vec::new();
        errors.push((input, error));
        Error { errors, message: None, notes: Vec::new(), help: None }
    }

    /// A recoverable miss at the end of what could be read.
    pub fn eof(input: usize) -> (r: ParseError)
        ensures
            r matches ParseError::Recoverable(e) && e.errors@ == seq![(input, ErrorKind::Syntax(SyntaxKind::Eof))]
                && e.message is None && e.notes@.len() == 0 && e.help is None,
    {
        ParseError::Recoverable(Error::single(input, ErrorKind::Syntax(SyntaxKind::Eof)))
    }

    pub fn make_custom(input: usize, message: String) -> (r: Self)
        ensures
            r.errors@ == seq![(input, ErrorKind::Custom(message))],
            r.message == Some(message),
            r.notes@.len() == 0,
            r.help is None,
    {
        let copy = message.clone();
        Error::single(input, ErrorKind::Custom(copy)).with_message(message)
    }

    pub fn with_message(self, message: String) -> (r: Self)
        ensures
            r.message == Some(message),
            r.errors == self.errors,
            r.notes == self.notes,
            r.help == self.help,
    {
        let mut e = self;
        e.message = Some(message);
        e
    }

    pub fn with_note(self, note: String) -> (r: Self)
        ensures
            r.notes@ == self.notes@.push(note),
            r.errors == self.errors,
            r.message == self.message,
            r.help == self.help,
    {
        let mut e = self;
        e.notes.push(note);
        e
    }

    pub fn with_help(self, help: String) -> (r: Self)
        ensures
            r.help == Some(help),
            r.errors == self.errors,
            r.notes == self.notes,
            r.message == self.message,
    {
        let mut e = self;
        e.help = Some(help);
        e
    }

    pub fn clear_message(self) -> (r: Self)
        ensures
            r.message is None,
            r.errors == self.errors,
            r.notes == self.notes,
            r.help == self.help,
    {
        let mut e = self;
        e.message = None;
        e
    }

    pub fn custom(input: usize, message: String) -> (r: ParseError)
        ensures
            r matches ParseError::Recoverable(e) && e.errors@ == seq![(input, ErrorKind::Custom(message))]
                && e.message == Some(message) && e.notes@.len() == 0 && e.help is None,
    {
        ParseError::Recoverable(Error::make_custom(input, message))
    }

    pub fn custom_failure(input: usize, message: String) -> (r: ParseError)
        ensures
            r matches ParseError::Fatal(e) && e.errors@ == seq![(input, ErrorKind::Custom(message))]
                && e.message == Some(message) && e.notes@.len() == 0 && e.help is None,
    {
        ParseError::Fatal(Error::make_custom(input, message))
    }

    pub fn from_error_kind(input: usize, kind: SyntaxKind) -> (r: Self)
        ensures
            r.errors@ == seq![(input, ErrorKind::Syntax(kind))],
            r.message is None,
            r.notes@.len() == 0,
            r.help is None,
    {
        Error::single(input, ErrorKind::Syntax(kind))
    }

    /// Records that `other` was raised while parsing the rule named `ctx`,
    /// which started at `input`.
    pub fn add_context(input: usize, ctx: String, other: Self) -> (r: Self)
        ensures
            r.errors@ == other.errors@.push((input, ErrorKind::Context(ctx))),
            r.message == other.message,
            r.notes == other.notes,
            r.help == other.help,
    {
        let mut e = other;
        e.errors.push((input, ErrorKind::Context(ctx)));
        e
    }

    /// Records that the building block `kind`, started at `input`, failed
    /// because of `other`.
    pub fn append(input: usize, kind: SyntaxKind, other: Self) -> (r: Self)
        ensures
            r.errors@ == other.errors@.push((input, ErrorKind::Syntax(kind))),
            r.message == other.message,
            r.notes == other.notes,
            r.help == other.help,
    {
        let mut e = other;
        e.errors.push((input, ErrorKind::Syntax(kind)));
        e
    }

    /// Merges the errors of two alternatives that both failed: the lists are
    /// joined in order, and the first message and help present are kept.
    pub fn or(self, other: Self) -> (r: Self)
        ensures
            r.errors@ == self.errors@ + other.errors@,
            r.notes@ == self.notes@ + other.notes@,
            r.message == (if self.message is Some { self.message } else { other.message }),
            r.help == (if self.help is Some { self.help } else { other.help }),
    {
        let mut e = self;
        let mut other = other;
        e.errors.append(&mut other.errors);
        e.notes.append(&mut other.notes);
        if e.message.is_none() {
            e.message = other.message;
        }
        if e.help.is_none() {
            e.help = other.help;
        }
        e
    }

    /// The span of each error in `main`, the input it was raised on: from the
    /// byte offset of its position to the end of the input, in bytes of UTF-8.
    pub fn resolve_spans(self, main: &str) -> (r: (Vec<(usize, usize, ErrorKind)>, ReportInfo))
        requires
            positions_within(self, main@.len() as int),
        ensures
            r.0@.len() == self.errors@.len(),
            forall|i: int| 0 <= i < r.0@.len() ==> #[trigger] r.0@[i] == (
                byte_offset(main@, self.errors@[i].0 as int) as usize,
                utf8_len(main@) as usize,
                self.errors@[i].1,
            ),
            r.1.message == self.message,
            r.1.notes == self.notes,
            r.1.help == self.help,
    {
        let offsets = byte_offsets(main);
        let n = chars_of(main).len();
        let end = offsets[n];
        proof {
            assert(main@.subrange(0, main@.len() as int) == main@);
        }
        let ghost errors = self.errors@;
        let Error { errors: mut list, message, notes, help } = self;
        let mut spans: Vec<(usize, usize, ErrorKind)> = Vec::new();
        while list.len() > 0
            invariant
                n == main@.len(),
                offsets@.len() == n + 1,
                forall|k: int| 0 <= k <= n ==> #[trigger] offsets@[k] == byte_offset(main@, k),
                end == utf8_len(main@),
                forall|i: int| 0 <= i < errors.len() ==> #[trigger] errors[i].0 <= n,
                spans@.len() + list@.len() == errors.len(),
                list@ == errors.subrange(0, list@.len() as int),
                forall|i: int| 0 <= i < spans@.len() ==> #[trigger] spans@[i] == (
                    byte_offset(main@, errors[errors.len() - 1 - i].0 as int) as usize,
                    end,
                    errors[errors.len() - 1 - i].1,
                ),
            decreases list.len(),
        {
            let (input, kind) = list.pop().unwrap();
            assert(input == errors[list@.len() as int].0);
            spans.push((offsets[input], end, kind));
        }
        let mut out: Vec<(usize, usize, ErrorKind)> = Vec::new();
        let ghost rev = spans@;
        while spans.len() > 0
            invariant
                rev.len() == errors.len(),
                out@.len() + spans@.len() == rev.len(),
                spans@ == rev.subrange(0, spans@.len() as int),
                forall|i: int| 0 <= i < rev.len() ==> #[trigger] rev[i] == (
                    byte_offset(main@, errors[errors.len() - 1 - i].0 as int) as usize,
                    end,
                    errors[errors.len() - 1 - i].1,
                ),
                forall|i: int| 0 <= i < out@.len() ==> #[trigger] out@[i] == rev[rev.len() - 1 - i],
            decreases spans.len(),
        {
            let item = spans.pop().unwrap();
            out.push(item);
        }
        (out, ReportInfo { message, notes, help })
    }
}

} // verus!
