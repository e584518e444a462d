//! Positions and failures shared by every stream.
use vstd::prelude::*;

pub mod lexer;
pub mod parse_stream;
pub mod scan;
pub mod text;

use crate::parser::text::{decimal_digits, push_decimal};

verus! {


/// A place in the text: line and column, both counted from 1.
#[derive(Debug, Clone, Copy, PartialEq, Eq, Structural)]
pub struct FilePos {
    pub line: usize,
    pub col: usize,
}

/// How many newline characters `s` holds.
pub open spec fn newlines(s: Seq<char>) -> nat
    decreases s.len(),
{
    if s.len() == 0 {
        0
    } else {
        newlines(s.drop_last()) + if s.last() == '\n' { 1nat } else { 0nat }
    }
}

impl FilePos {
    /// The place after `c` has been consumed at `self`.
    pub open spec fn after(self, c: char) -> FilePos {
        if c == '\n' {
            FilePos { line: (self.line + 1) as usize, col: 1 }
        } else {
            FilePos { line: self.line, col: (self.col + 1) as usize }
        }
    }

    /// The place after all of `s` has been consumed, first character first.
    pub open spec fn after_all(self, s: Seq<char>) -> FilePos
        decreases s.len(),
    {
        if s.len() == 0 {
            self
        } else {
            self.after_all(s.drop_last()).after(s.last())
        }
    }

    /// The start of a text.
    pub open spec fn start() -> FilePos {
        FilePos { line: 1, col: 1 }
    }

    pub fn new() -> (p: Self)
        ensures
            p == FilePos::start(),
    {
        Self { line: 1, col: 1 }
    }

    /// Moves past `c`: a newline starts the next line at column 1, any other
    /// character moves one column to the right.
    pub fn advance(&mut self, c: char)
        requires
            old(self).line < usize::MAX,
            old(self).col < usize::MAX,
        ensures
            *final(self) == old(self).after(c),
            c == '\n' ==> final(self).line == old(self).line + 1 && final(self).col == 1,
            c != '\n' ==> final(self).line == old(self).line && final(self).col == old(self).col
                + 1,
    {
        if c == '\n' {
            self.line += 1;
            self.col = 1;
        } else {
            self.col += 1;
        }
    }

    /// `self` as text: the line, a colon, the column.
    pub open spec fn rendered(self) -> Seq<char> {
        decimal_digits(self.line as nat) + ":"@ + decimal_digits(self.col as nat)
    }

    /// Writes the position as `line:col`, both in decimal.
    pub fn render(&self) -> (s: String)
        ensures
            s@ == self.rendered(),
    {
        let mut s = String::new();
        push_decimal(&mut s, self.line);
        s.append(":");
        push_decimal(&mut s, self.col);
        assert(s@ =~= self.rendered());
        s
    }
}

/// Consuming `s` and then `c` is consuming `s.push(c)`.
pub proof fn lemma_after_all_push(p: FilePos, s: Seq<char>, c: char)
    ensures
        p.after_all(s.push(c)) == p.after_all(s).after(c),
{
    assert(s.push(c).drop_last() =~= s);
}

/// Consuming `a` and then `b` is consuming `a + b`.
pub proof fn lemma_after_all_concat(p: FilePos, a: Seq<char>, b: Seq<char>)
    ensures
        p.after_all(a + b) == p.after_all(a).after_all(b),
    decreases b.len(),
{
    if b.len() == 0 {
        assert(a + b =~= a);
    } else {
        lemma_after_all_concat(p, a, b.drop_last());
        assert((a + b).drop_last() =~= a + b.drop_last());
    }
}

/// How many newline characters there are is at most how many characters.
pub proof fn lemma_newlines_bound(s: Seq<char>)
    ensures
        newlines(s) <= s.len(),
    decreases s.len(),
{
    if s.len() > 0 {
        lemma_newlines_bound(s.drop_last());
    }
}

/// While the counters fit the machine's integers, the line reached is the
/// starting line plus the number of newlines consumed, and the column grows
/// by at most one per character.
pub proof fn lemma_after_all_bounds(p: FilePos, s: Seq<char>)
    requires
        p.col >= 1,
        p.line + s.len() <= usize::MAX,
        p.col + s.len() <= usize::MAX,
    ensures
        p.after_all(s).line == p.line + newlines(s),
        newlines(s) <= s.len(),
        1 <= p.after_all(s).col <= p.col + s.len(),
    decreases s.len(),
{
    lemma_newlines_bound(s);
    if s.len() > 0 {
        lemma_newlines_bound(s.drop_last());
        lemma_after_all_bounds(p, s.drop_last());
    }
}

/// Why a stream could not hand out what was asked of it.
#[derive(Debug, PartialEq, Eq)]
pub enum ErrorKind {
    /// The source ran out while more input was needed.
    Eof,
    /// The input holds a character outside the lexical alphabet.
    BadCharacter { found: char },
    /// The items at the cursor are not the expected ones; both sides as text.
    Mismatch { expected: String, actual: String },
}

/// What an [`ErrorKind`] stands for in contracts.
pub enum ErrorKindView {
    Eof,
    BadCharacter { found: char },
    Mismatch { expected: Seq<char>, actual: Seq<char> },
}

impl View for ErrorKind {
    type V = ErrorKindView;

    open spec fn view(&self) -> ErrorKindView {
        match *self {
            ErrorKind::Eof => ErrorKindView::Eof,
            ErrorKind::BadCharacter { found } => ErrorKindView::BadCharacter { found },
            ErrorKind::Mismatch { expected, actual } => ErrorKindView::Mismatch {
                expected: expected@,
                actual: actual@,
            },
        }
    }
}

/// The message of an end-of-input failure.
pub open spec fn eof_message() -> Seq<char> {
    "End of file"@
}

/// The message of a failure on the character `c`.
pub open spec fn bad_char_message(c: char) -> Seq<char> {
    "Bad char '"@.push(c).push('\'')
}

/// The message of a failed match, from the two sides as text.
pub open spec fn mismatch_message(expected: Seq<char>, actual: Seq<char>) -> Seq<char> {
    "Expected "@ + expected + ", got "@ + actual
}

/// A failure of a stream: what went wrong, where, and in which file if known.
#[derive(Debug, PartialEq, Eq)]
pub struct ParseError {
    kind: ErrorKind,
    msg: String,
    src_path: Option<String>,
    file_pos: FilePos,
}

/// What a [`ParseError`] stands for in contracts.
pub struct ParseErrorView {
    pub kind: ErrorKindView,
    pub msg: Seq<char>,
    pub src_path: Option<Seq<char>>,
    pub file_pos: FilePos,
}

impl ParseErrorView {
    /// The end-of-input failure at `file_pos`.
    pub open spec fn eof(file_pos: FilePos, src_path: Option<Seq<char>>) -> ParseErrorView {
        ParseErrorView { kind: ErrorKindView::Eof, msg: eof_message(), src_path, file_pos }
    }

    /// The failure on the character `c`, met at `file_pos`.
    pub open spec fn bad_char(c: char, file_pos: FilePos) -> ParseErrorView {
        ParseErrorView {
            kind: ErrorKindView::BadCharacter { found: c },
            msg: bad_char_message(c),
            src_path: None,
            file_pos,
        }
    }

    /// The failed match of `expected` against `actual` at `file_pos`.
    pub open spec fn mismatch(
        actual: Seq<char>,
        expected: Seq<char>,
        file_pos: FilePos,
    ) -> ParseErrorView {
        ParseErrorView {
            kind: ErrorKindView::Mismatch { expected, actual },
            msg: mismatch_message(expected, actual),
            src_path: None,
            file_pos,
        }
    }

    /// The same failure, said to come from the file at `path`.
    pub open spec fn with_src_path(self, path: Seq<char>) -> ParseErrorView {
        ParseErrorView { src_path: Some(path), ..self }
    }

    /// Where the failure came from, as the report names it.
    pub open spec fn origin(self) -> Seq<char> {
        match self.src_path {
            None => "string"@,
            Some(path) => "file at "@ + path + ":"@ + self.file_pos.rendered(),
        }
    }

    /// The report of the failure: its origin on the first line, its message
    /// on the second, after a tab.
    pub open spec fn rendered(self) -> Seq<char> {
        "Error parsing "@ + self.origin() + "\n\t"@ + self.msg
    }
}

impl View for ParseError {
    type V = ParseErrorView;

    closed spec fn view(&self) -> ParseErrorView {
        ParseErrorView {
            kind: self.kind@,
            msg: self.msg@,
            src_path: match self.src_path {
                Some(path) => Some(path@),
                None => None,
            },
            file_pos: self.file_pos,
        }
    }
}

pub type ParseResult<T> = Result<T, ParseError>;

impl ParseError {
    /// A failure of the given kind with the message `msg`, from no file.
    pub fn from_str(kind: ErrorKind, msg: String, file_pos: FilePos) -> (e: Self)
        ensures
            e@ == (ParseErrorView { kind: kind@, msg: msg@, src_path: None, file_pos }),
    {
        Self { kind, msg, src_path: None, file_pos }
    }

    /// The end-of-input failure.
    pub fn eof(file_pos: FilePos, src_path: Option<String>) -> (e: Self)
        ensures
            e@ == ParseErrorView::eof(
                file_pos,
                match src_path {
                    Some(path) => Some(path@),
                    None => None,
                },
            ),
    {
        Self { kind: ErrorKind::Eof, msg: String::from_str("End of file"), src_path, file_pos }
    }

    /// The failure on a character that no token can hold.
    pub fn bad_char(c: char, file_pos: FilePos) -> (e: Self)
        ensures
            e@ == ParseErrorView::bad_char(c, file_pos),
    {
        let mut msg = String::from_str("Bad char '");
        msg.push(c);
        msg.push('\'');
        Self { kind: ErrorKind::BadCharacter { found: c }, msg, src_path: None, file_pos }
    }

    /// The failure of a match: `actual` was found where `expected` was
    /// asked for, both given as text.
    pub fn mismatch(actual: String, expected: String, file_pos: FilePos) -> (e: Self)
        ensures
            e@ == ParseErrorView::mismatch(actual@, expected@, file_pos),
    {
        let mut msg = String::from_str("Expected ");
        msg.append(expected.as_str());
        msg.append(", got ");
        msg.append(actual.as_str());
        assert(msg@ =~= mismatch_message(expected@, actual@));
        Self { kind: ErrorKind::Mismatch { expected, actual }, msg, src_path: None, file_pos }
    }

    /// What went wrong.
    pub fn kind(&self) -> (k: &ErrorKind)
        ensures
            k@ == self@.kind,
    {
        &self.kind
    }

    /// The message for a reader.
    pub fn message(&self) -> (m: &str)
        ensures
            m@ == self@.msg,
    {
        self.msg.as_str()
    }

    /// Where it went wrong.
    pub fn position(&self) -> (p: FilePos)
        ensures
            p == self@.file_pos,
    {
        self.file_pos
    }

    /// The path of the file that the failure came from, if it is known.
    pub fn src_path(&self) -> (p: Option<&str>)
        ensures
            match p {
                Some(path) => self@.src_path == Some(path@),
                None => self@.src_path is None,
            },
    {
        match &self.src_path {
            Some(path) => Some(path.as_str()),
            None => None,
        }
    }

    /// Attaches the path of the file that the failure came from.
    pub fn with_src_path(self, path: String) -> (e: Self)
        ensures
            e@ == self@.with_src_path(path@),
    {
        Self { kind: self.kind, msg: self.msg, src_path: Some(path), file_pos: self.file_pos }
    }

    /// The report of the failure for a reader.
    pub fn render(&self) -> (s: String)
        ensures
            s@ == self@.rendered(),
    {
        let mut s = String::from_str("Error parsing ");
        match &self.src_path {
            None => {
                s.append("string");
            },
            Some(path) => {
                s.append("file at ");
                s.append(path.as_str());
                s.append(":");
                let pos = self.file_pos.render();
                s.append(pos.as_str());
                assert(s@ =~= "Error parsing "@ + self@.origin());
            },
        }
        s.append("\n\t");
        s.append(self.msg.as_str());
        assert(s@ =~= self@.rendered());
        s
    }
}

} // verus!
