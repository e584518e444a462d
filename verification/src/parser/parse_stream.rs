//! The stream capability and the two character sources.
use vstd::prelude::*;
use crate::parser::{
    lemma_after_all_bounds, lemma_after_all_concat, lemma_after_all_push, newlines, FilePos,
    ParseError, ParseErrorView, ParseResult,
};
use crate::parser::text::{chars_of, in_class, lemma_run_len_is, run_len, CharClass};

verus! {

/// The views of `items`, one for one.
pub open spec fn views<T: View>(items: Seq<T>) -> Seq<T::V> {
    items.map_values(|t: T| t@)
}

/// What is still to come after a match of `items` was tried on `upcoming`:
/// the rest behind `items` where they stand at the front, all of `upcoming`
/// where they do not.
pub open spec fn after_match<V>(upcoming: Seq<V>, items: Seq<V>) -> Seq<V> {
    if items.is_prefix_of(upcoming) {
        upcoming.skip(items.len() as int)
    } else {
        upcoming
    }
}

/// A match that fails can be tried again: where `p` stands at the front of
/// what is to come and `q` is as long as `p` but differs from it, a match
/// of `q` fails and leaves everything to come, so that a match of `p`
/// after it succeeds and takes exactly `p`.
pub proof fn lemma_failed_match_allows_retry<V>(upcoming: Seq<V>, p: Seq<V>, q: Seq<V>)
    requires
        p.is_prefix_of(upcoming),
        q.len() == p.len(),
        q != p,
    ensures
        !q.is_prefix_of(upcoming),
        after_match(upcoming, q) == upcoming,
        p.is_prefix_of(after_match(upcoming, q)),
        after_match(after_match(upcoming, q), p) == upcoming.skip(p.len() as int),
{
    if q.is_prefix_of(upcoming) {
        assert(q =~= p);
    }
}

/// How many leading places `a` and `b` agree on.
pub open spec fn common_len<V>(a: Seq<V>, b: Seq<V>) -> nat
    decreases a.len(),
{
    if a.len() == 0 || b.len() == 0 || a[0] != b[0] {
        0
    } else {
        1 + common_len(a.skip(1), b.skip(1))
    }
}

/// `common_len` is the first place where the two differ or one ends.
pub proof fn lemma_common_len<V>(a: Seq<V>, b: Seq<V>)
    ensures
        common_len(a, b) <= a.len(),
        common_len(a, b) <= b.len(),
        a.take(common_len(a, b) as int) == b.take(common_len(a, b) as int),
        common_len(a, b) < a.len() && common_len(a, b) < b.len() ==> a[common_len(a, b) as int]
            != b[common_len(a, b) as int],
        a.is_prefix_of(b) <==> common_len(a, b) == a.len(),
    decreases a.len(),
{
    let n = common_len(a, b);
    if a.len() == 0 || b.len() == 0 || a[0] != b[0] {
        assert(a.take(0) =~= b.take(0));
        if a.is_prefix_of(b) && a.len() > 0 {
            assert(a[0] == b[0]);
        }
    } else {
        lemma_common_len(a.skip(1), b.skip(1));
        let m = common_len(a.skip(1), b.skip(1));
        assert(a.take(n as int) =~= seq![a[0]] + a.skip(1).take(m as int));
        assert(b.take(n as int) =~= seq![b[0]] + b.skip(1).take(m as int));
        if m < a.len() - 1 && m < b.len() - 1 {
            assert(a.skip(1)[m as int] == a[n as int]);
            assert(b.skip(1)[m as int] == b[n as int]);
        }
        if a.is_prefix_of(b) {
            assert(a.skip(1) =~= b.skip(1).take(a.len() - 1));
            assert(a.skip(1).is_prefix_of(b.skip(1)));
        }
        if n == a.len() {
            assert(a =~= a.take(n as int));
            assert(a =~= b.take(a.len() as int));
        }
    }
}

/// `k` is `common_len` when the two agree on their first `k` places and
/// then differ, or one of them ends.
pub proof fn lemma_common_len_is<V>(a: Seq<V>, b: Seq<V>, k: nat)
    requires
        k <= a.len(),
        k <= b.len(),
        a.take(k as int) == b.take(k as int),
        k == a.len() || k == b.len() || a[k as int] != b[k as int],
    ensures
        common_len(a, b) == k,
    decreases k,
{
    if k > 0 {
        assert(a[0] == a.take(k as int)[0]);
        assert(b[0] == b.take(k as int)[0]);
        assert(a.skip(1).take(k - 1) =~= a.take(k as int).skip(1));
        assert(b.skip(1).take(k - 1) =~= b.take(k as int).skip(1));
        lemma_common_len_is(a.skip(1), b.skip(1), (k - 1) as nat);
    }
}

/// An ordered source of items that are handed out one by one, with a match
/// of several items at once that takes all of them or none.
pub trait ParseStream<T: View> {
    /// The stream's own invariant.
    spec fn wf(&self) -> bool;

    /// The items that `next` hands out, call after call, before it first
    /// fails.
    spec fn upcoming(&self) -> Seq<T::V>;

    /// Whether that first failure is the end of the input, and not input
    /// that the stream cannot classify.
    spec fn ends_cleanly(&self) -> bool;

    /// Hands out the next item and moves past it. With nothing to come it
    /// fails: at a clean end with `Eof`, leaving the stream as it was.
    fn next(&mut self) -> (r: ParseResult<T>)
        requires
            old(self).wf(),
        ensures
            final(self).wf(),
            r is Ok <==> old(self).upcoming().len() > 0,
            r matches Ok(item) ==> {
                &&& item@ == old(self).upcoming()[0]
                &&& final(self).upcoming() == old(self).upcoming().skip(1)
                &&& final(self).ends_cleanly() == old(self).ends_cleanly()
            },
            r matches Err(e) ==> (e@.kind is Eof <==> old(self).ends_cleanly()),
            r is Err && old(self).ends_cleanly() ==> {
                &&& final(self).upcoming() == old(self).upcoming()
                &&& final(self).ends_cleanly()
            },
    ;

    /// Matches `items` against the front of what is to come. It succeeds
    /// exactly when they stand there, and then moves past them and returns
    /// them. A failed match of items that the stream could still produce, or
    /// on a stream that ends cleanly, consumes nothing.
    fn try_match(&mut self, items: Vec<T>) -> (r: ParseResult<Vec<T>>)
        requires
            old(self).wf(),
        ensures
            final(self).wf(),
            r is Ok <==> views(items@).is_prefix_of(old(self).upcoming()),
            r matches Ok(found) ==> found == items,
            old(self).ends_cleanly() || items.len() <= old(self).upcoming().len() ==> {
                &&& final(self).upcoming() == after_match(old(self).upcoming(), views(items@))
                &&& final(self).ends_cleanly() == old(self).ends_cleanly()
            },
            r matches Err(e) ==> {
                &&& items.len() <= old(self).upcoming().len() ==> e@.kind is Mismatch
                &&& e@.kind is Mismatch ==> final(self).upcoming() == old(self).upcoming()
            },
    ;
}

/// A text held in memory, read character by character.
#[derive(Debug, PartialEq, Eq)]
pub struct StringStream {
    file_pos: FilePos,
    pos: usize,
    data: Vec<char>,
}

impl StringStream {
    /// The characters read so far.
    pub closed spec fn consumed(&self) -> Seq<char> {
        self.data@.take(self.pos as int)
    }

    /// The place of the next character.
    pub closed spec fn position(&self) -> FilePos {
        self.file_pos
    }

    /// In a well-formed stream the position is the one that the characters
    /// read so far lead to, and the text is short enough for its lines and
    /// columns to be counted.
    pub proof fn lemma_position(&self)
        requires
            self.wf(),
        ensures
            self.position() == FilePos::start().after_all(self.consumed()),
            self.consumed().len() + self.upcoming().len() < usize::MAX,
    {
    }

    /// The line of the position is 1 plus the number of newlines read, and
    /// stays so however far the stream is read.
    pub proof fn lemma_line_counts_newlines(&self)
        requires
            self.wf(),
        ensures
            self.position().line == 1 + newlines(self.consumed()),
            self.position().col >= 1,
    {
        lemma_after_all_bounds(FilePos::start(), self.consumed());
    }

    /// A stream at the start of `text`.
    pub fn new(text: &str) -> (s: Self)
        requires
            text@.len() < usize::MAX,
        ensures
            s.wf(),
            s.ends_cleanly(),
            s.upcoming() == text@,
            s.consumed() == Seq::<char>::empty(),
            s.position() == FilePos::start(),
    {
        let data = chars_of(text);
        let s = Self { file_pos: FilePos::new(), pos: 0, data };
        assert(s.data@.skip(0) =~= text@);
        assert(s.data@.take(0) =~= Seq::<char>::empty());
        s
    }

    /// The place of the next character.
    pub fn file_pos(&self) -> (p: FilePos)
        ensures
            p == self.position(),
    {
        self.file_pos
    }

    /// Fails with `Eof` exactly when nothing is left to read.
    pub fn check_eof(&self) -> (r: ParseResult<()>)
        requires
            self.wf(),
        ensures
            r is Ok <==> self.upcoming().len() > 0,
            r matches Err(e) ==> e@ == ParseErrorView::eof(self.position(), None),
    {
        if self.pos >= self.data.len() {
            Err(ParseError::eof(self.file_pos, None))
        } else {
            Ok(())
        }
    }
}

/// A one-character text.
pub open spec fn char_text(c: char) -> Seq<char> {
    seq![c]
}

/// The failure of a match of `items` on a character source with `upcoming`
/// to come, at `position`: where the two first differ, or where the input
/// ends before `items` do.
pub open spec fn char_match_failure(
    upcoming: Seq<char>,
    items: Seq<char>,
    position: FilePos,
) -> ParseErrorView {
    let k = common_len(items, upcoming);
    let at = position.after_all(items.take(k as int));
    if k < upcoming.len() {
        ParseErrorView::mismatch(char_text(upcoming[k as int]), char_text(items[k as int]), at)
    } else {
        ParseErrorView::eof(at, None)
    }
}

/// The one-character string of `c`.
fn char_string(c: char) -> (s: String)
    ensures
        s@ == char_text(c),
{
    let mut s = String::new();
    s.push(c);
    assert(s@ =~= char_text(c));
    s
}

impl ParseStream<char> for StringStream {
    closed spec fn wf(&self) -> bool {
        &&& self.pos <= self.data.len()
        &&& self.data.len() < usize::MAX
        &&& self.file_pos == FilePos::start().after_all(self.data@.take(self.pos as int))
    }

    closed spec fn upcoming(&self) -> Seq<char> {
        self.data@.skip(self.pos as int)
    }

    open spec fn ends_cleanly(&self) -> bool {
        true
    }

    /// Hands out the character at the cursor and moves the position past
    /// it; at the end it fails with `Eof` at the final position.
    fn next(&mut self) -> (r: ParseResult<char>)
        ensures
            r matches Ok(c) ==> {
                &&& final(self).consumed() == old(self).consumed().push(c)
                &&& final(self).position() == old(self).position().after(c)
            },
            r matches Err(e) ==> {
                &&& e@ == ParseErrorView::eof(old(self).position(), None)
                &&& final(self).consumed() == old(self).consumed()
                &&& final(self).position() == old(self).position()
            },
    {
        match self.check_eof() {
            Err(e) => {
                return Err(e);
            },
            Ok(()) => {},
        }
        let c = self.data[self.pos];
        proof {
            lemma_after_all_bounds(FilePos::start(), self.data@.take(self.pos as int));
            lemma_after_all_push(FilePos::start(), self.data@.take(self.pos as int), c);
            assert(self.data@.take(self.pos as int).push(c) =~= self.data@.take(self.pos + 1));
            assert(self.data@.skip(self.pos as int).skip(1) =~= self.data@.skip(self.pos + 1));
        }
        self.pos += 1;
        self.file_pos.advance(c);
        Ok(c)
    }

    /// Compares `items` with the characters at the cursor, place by place.
    /// When all agree the cursor moves past them, and the position moves as
    /// each of them moves it. Otherwise nothing moves, and the failure names
    /// the first place that differs or, where the text ends first, `Eof`.
    fn try_match(&mut self, items: Vec<char>) -> (r: ParseResult<Vec<char>>)
        ensures
            r is Ok ==> {
                &&& final(self).consumed() == old(self).consumed() + items@
                &&& final(self).position() == old(self).position().after_all(items@)
            },
            r matches Err(e) ==> {
                &&& e@ == char_match_failure(old(self).upcoming(), items@, old(self).position())
                &&& final(self).consumed() == old(self).consumed()
                &&& final(self).upcoming() == old(self).upcoming()
                &&& final(self).position() == old(self).position()
            },
    {
        let ghost up = self.data@.skip(self.pos as int);
        let ghost done = self.data@.take(self.pos as int);
        let mut file_pos = self.file_pos;
        let mut i: usize = 0;
        proof {
            assert(views(items@) =~= items@);
            lemma_common_len(items@, up);
        }
        while i < items.len()
            invariant
                self.wf(),
                up == self.data@.skip(self.pos as int),
                done == self.data@.take(self.pos as int),
                i <= items.len(),
                self.pos + i <= self.data.len(),
                items@.take(i as int) == up.take(i as int),
                file_pos == self.file_pos.after_all(items@.take(i as int)),
                *self == *old(self),
            decreases items.len() - i,
        {
            proof {
                lemma_common_len(items@, up);
                assert(views(items@) =~= items@);
            }
            if self.pos + i >= self.data.len() {
                proof {
                    lemma_common_len_is(items@, up, i as nat);
                }
                return Err(ParseError::eof(file_pos, None));
            }
            let a = self.data[self.pos + i];
            let b = items[i];
            if a != b {
                proof {
                    lemma_common_len_is(items@, up, i as nat);
                }
                return Err(ParseError::mismatch(char_string(a), char_string(b), file_pos));
            }
            proof {
                lemma_after_all_concat(FilePos::start(), done, items@.take(i as int));
                assert(done + items@.take(i as int) =~= self.data@.take(self.pos + i));
                lemma_after_all_bounds(FilePos::start(), self.data@.take(self.pos + i));
                lemma_after_all_push(self.file_pos, items@.take(i as int), a);
                assert(items@.take(i as int).push(a) =~= items@.take(i + 1));
                assert(up.take(i as int).push(a) =~= up.take(i + 1));
            }
            file_pos.advance(a);
            i += 1;
        }
        proof {
            assert(items@.take(i as int) =~= items@);
            assert(items@ =~= up.take(items.len() as int));
            assert(done + items@ =~= self.data@.take(self.pos + items.len()));
            assert(up.skip(items.len() as int) =~= self.data@.skip(self.pos + items.len()));
            lemma_after_all_concat(FilePos::start(), done, items@);
        }
        self.file_pos = file_pos;
        self.pos += items.len();
        Ok(items)
    }
}

/// A text that was read from a file: a [`StringStream`] whose failures name
/// the file.
#[derive(Debug, PartialEq, Eq)]
pub struct FileStream {
    src_path: String,
    string_stream: StringStream,
}

impl FileStream {
    /// The path of the file.
    pub closed spec fn path(&self) -> Seq<char> {
        self.src_path@
    }

    /// The stream over the file's text.
    pub closed spec fn inner(&self) -> StringStream {
        self.string_stream
    }

    /// A stream at the start of `text`, the content of the file at
    /// `src_path`.
    pub fn new(src_path: String, text: &str) -> (s: Self)
        requires
            text@.len() < usize::MAX,
        ensures
            s.wf(),
            s.upcoming() == text@,
            s.path() == src_path@,
            s.inner().consumed() == Seq::<char>::empty(),
            s.inner().position() == FilePos::start(),
    {
        Self { src_path, string_stream: StringStream::new(text) }
    }

    /// The line of the position is 1 plus the number of newlines read, and
    /// stays so however far the stream is read.
    pub proof fn lemma_line_counts_newlines(&self)
        requires
            self.wf(),
        ensures
            self.inner().wf(),
            self.inner().position().line == 1 + newlines(self.inner().consumed()),
            self.inner().position().col >= 1,
    {
        self.string_stream.lemma_line_counts_newlines();
    }

    /// The place of the next character.
    pub fn file_pos(&self) -> (p: FilePos)
        ensures
            p == self.inner().position(),
    {
        self.string_stream.file_pos()
    }
}

impl ParseStream<char> for FileStream {
    closed spec fn wf(&self) -> bool {
        self.string_stream.wf()
    }

    closed spec fn upcoming(&self) -> Seq<char> {
        self.string_stream.upcoming()
    }

    open spec fn ends_cleanly(&self) -> bool {
        true
    }

    /// As the stream over the text does, with the file's path in the
    /// failure.
    fn next(&mut self) -> (r: ParseResult<char>)
        ensures
            final(self).path() == old(self).path(),
            r matches Ok(c) ==> {
                &&& final(self).inner().consumed() == old(self).inner().consumed().push(c)
                &&& final(self).inner().position() == old(self).inner().position().after(c)
            },
            r matches Err(e) ==> {
                &&& e@ == ParseErrorView::eof(old(self).inner().position(), Some(old(self).path()))
                &&& final(self).inner().consumed() == old(self).inner().consumed()
                &&& final(self).inner().position() == old(self).inner().position()
            },
    {
        match self.string_stream.next() {
            Ok(c) => Ok(c),
            Err(e) => Err(e.with_src_path(self.src_path.clone())),
        }
    }

    /// As the stream over the text does, with the file's path in the
    /// failure.
    fn try_match(&mut self, items: Vec<char>) -> (r: ParseResult<Vec<char>>)
        ensures
            final(self).path() == old(self).path(),
            r is Ok ==> {
                &&& final(self).inner().consumed() == old(self).inner().consumed() + items@
                &&& final(self).inner().position() == old(self).inner().position().after_all(
                    items@,
                )
            },
            r matches Err(e) ==> {
                &&& e@ == char_match_failure(
                    old(self).upcoming(),
                    items@,
                    old(self).inner().position(),
                ).with_src_path(old(self).path())
                &&& final(self).inner().consumed() == old(self).inner().consumed()
                &&& final(self).upcoming() == old(self).upcoming()
                &&& final(self).inner().position() == old(self).inner().position()
            },
    {
        match self.string_stream.try_match(items) {
            Ok(found) => Ok(found),
            Err(e) => Err(e.with_src_path(self.src_path.clone())),
        }
    }
}

/// Moves `stream` past the spaces at its front. On a stream that ends
/// cleanly, or that has anything but spaces to come, exactly the leading
/// spaces are consumed.
pub fn skip_whitespace<S>(stream: &mut S) where S: ParseStream<char>
    requires
        old(stream).wf(),
    ensures
        final(stream).wf(),
        old(stream).ends_cleanly() || run_len(old(stream).upcoming(), CharClass::Space) < old(
            stream,
        ).upcoming().len() ==> {
            &&& final(stream).upcoming() == old(stream).upcoming().skip(
                run_len(old(stream).upcoming(), CharClass::Space) as int,
            )
            &&& final(stream).ends_cleanly() == old(stream).ends_cleanly()
        },
{
    let ghost chars = stream.upcoming();
    let ghost clean = stream.ends_cleanly();
    let ghost mut k: int = 0;
    let mut more = true;
    proof {
        assert(chars.skip(0) =~= chars);
    }
    while more
        invariant
            stream.wf(),
            0 <= k <= chars.len(),
            forall|j: int| 0 <= j < k ==> in_class(#[trigger] chars[j], CharClass::Space),
            more ==> stream.upcoming() == chars.skip(k) && stream.ends_cleanly() == clean,
            !more ==> {
                &&& k == chars.len() || !in_class(chars[k], CharClass::Space)
                &&& clean || k < chars.len() ==> stream.upcoming() == chars.skip(k)
                    && stream.ends_cleanly() == clean
            },
        decreases chars.len() - k, if more { 1nat } else { 0nat },
    {
        let space = vec![' '];
        proof {
            assert(views(space@) =~= seq![' ']);
            if k < chars.len() {
                assert(chars.skip(k)[0] == chars[k]);
                assert(chars.skip(k).skip(1) =~= chars.skip(k + 1));
                if chars[k] == ' ' {
                    assert(seq![' '] =~= chars.skip(k).take(1));
                }
            }
        }
        if stream.try_match(space).is_ok() {
            proof {
                assert(chars.skip(k).subrange(0, 1)[0] == seq![' '][0]);
                k = k + 1;
            }
        } else {
            more = false;
        }
    }
    proof {
        lemma_run_len_is(chars, CharClass::Space, k as nat);
    }
}

} // verus!
