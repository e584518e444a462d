//! Tokens, and the stream that groups characters into them.
use std::collections::VecDeque;
use vstd::prelude::*;
use crate::parser::parse_stream::{lemma_common_len_is, views, ParseStream};
use crate::parser::scan::{
    fuel, indent_width, lemma_match, lemma_next, lemma_scan, lemma_scan_decreases, LexState,
};
use crate::parser::text::{
    chars_of, decimal_digits, in_class, is_symbol, is_whitespace, is_word, is_word_char,
    lemma_run_len, lemma_run_len_is, push_decimal, run_len, CharClass,
};
use crate::parser::{
    lemma_after_all_concat, lemma_after_all_push, FilePos, ParseError, ParseErrorView, ParseResult,
};

verus! {

/// The reserved words.
#[derive(Debug, Clone, Copy, PartialEq, Eq, Structural)]
pub enum Keyword {
    If,
    Else,
    Def,
    /// The word `None`.
    NoneKw,
    True,
    False,
    Return,
    Class,
}

/// One lexical unit of the language.
#[derive(Debug, PartialEq, Eq)]
pub enum Token {
    /// The indentation of a line: the width of its leading spaces and tabs.
    WS(usize),
    /// A name that is no keyword.
    Ident(String),
    /// A reserved word.
    Kywrd(Keyword),
    /// A character that is a token by itself.
    Symbl(char),
}

/// What a [`Token`] stands for in contracts.
pub enum TokenView {
    WS(nat),
    Ident(Seq<char>),
    Kywrd(Keyword),
    Symbl(char),
}

impl View for Token {
    type V = TokenView;

    open spec fn view(&self) -> TokenView {
        match *self {
            Token::WS(n) => TokenView::WS(n as nat),
            Token::Ident(name) => TokenView::Ident(name@),
            Token::Kywrd(k) => TokenView::Kywrd(k),
            Token::Symbl(c) => TokenView::Symbl(c),
        }
    }
}

impl Keyword {
    /// The keyword's name, as it is written in reports.
    pub open spec fn name(self) -> Seq<char> {
        match self {
            Keyword::If => "If"@,
            Keyword::Else => "Else"@,
            Keyword::Def => "Def"@,
            Keyword::NoneKw => "None"@,
            Keyword::True => "True"@,
            Keyword::False => "False"@,
            Keyword::Return => "Return"@,
            Keyword::Class => "Class"@,
        }
    }

    /// The keyword's name, as it is written in reports.
    pub fn label(&self) -> (s: &'static str)
        ensures
            s@ == self.name(),
    {
        match self {
            Keyword::If => "If",
            Keyword::Else => "Else",
            Keyword::Def => "Def",
            Keyword::NoneKw => "None",
            Keyword::True => "True",
            Keyword::False => "False",
            Keyword::Return => "Return",
            Keyword::Class => "Class",
        }
    }
}

impl TokenView {
    /// The token in words: its kind, a space, and what it holds.
    pub open spec fn described(self) -> Seq<char> {
        match self {
            TokenView::WS(n) => "Whitespace "@ + decimal_digits(n),
            TokenView::Ident(name) => "Identifier "@ + name,
            TokenView::Kywrd(k) => "Keyword "@ + k.name(),
            TokenView::Symbl(c) => "Symbol "@.push(c),
        }
    }
}

impl Token {
    /// Writes the token in words: its kind, a space, and what it holds.
    pub fn describe(&self) -> (s: String)
        ensures
            s@ == self@.described(),
    {
        match self {
            Token::WS(n) => {
                let mut s = String::from_str("Whitespace ");
                push_decimal(&mut s, *n);
                s
            },
            Token::Ident(name) => {
                let mut s = String::from_str("Identifier ");
                s.append(name.as_str());
                s
            },
            Token::Kywrd(k) => {
                let mut s = String::from_str("Keyword ");
                s.append(k.label());
                s
            },
            Token::Symbl(c) => {
                let mut s = String::from_str("Symbol ");
                s.push(*c);
                s
            },
        }
    }

    /// Whether two tokens are of the same variant and hold the same.
    pub fn same(&self, other: &Token) -> (b: bool)
        ensures
            b == (self@ == other@),
    {
        match (self, other) {
            (Token::WS(a), Token::WS(b)) => *a == *b,
            (Token::Ident(a), Token::Ident(b)) => *a == *b,
            (Token::Kywrd(a), Token::Kywrd(b)) => *a == *b,
            (Token::Symbl(a), Token::Symbl(b)) => *a == *b,
            _ => false,
        }
    }
}

/// The keyword that is written `w`, if there is one. Case counts.
pub open spec fn keyword_of(w: Seq<char>) -> Option<Keyword> {
    if w == "if"@ {
        Some(Keyword::If)
    } else if w == "else"@ {
        Some(Keyword::Else)
    } else if w == "def"@ {
        Some(Keyword::Def)
    } else if w == "return"@ {
        Some(Keyword::Return)
    } else if w == "class"@ {
        Some(Keyword::Class)
    } else if w == "None"@ {
        Some(Keyword::NoneKw)
    } else if w == "True"@ {
        Some(Keyword::True)
    } else if w == "False"@ {
        Some(Keyword::False)
    } else {
        None
    }
}

/// The token that the word `w` is: its keyword, or else an identifier.
pub open spec fn word_token(w: Seq<char>) -> TokenView {
    match keyword_of(w) {
        Some(k) => TokenView::Kywrd(k),
        None => TokenView::Ident(w),
    }
}

/// Whether the characters of `word` are those of `text`.
fn spells(word: &Vec<char>, text: &str) -> (b: bool)
    ensures
        b == (word@ == text@),
{
    let mut i: usize = 0;
    let mut same = true;
    for c in it: text.chars()
        invariant
            it.seq() == text@,
            same ==> i == it.index() && i <= word.len() && word@.take(i as int) == text@.take(
                i as int,
            ),
            !same ==> word@ != text@,
    {
        if same {
            if i < word.len() && word[i] == c {
                assert(word@.take(i + 1) =~= word@.take(i as int).push(c));
                assert(text@.take(i + 1) =~= text@.take(i as int).push(c));
                i += 1;
            } else {
                same = false;
                assert(word@ != text@) by {
                    if word@ == text@ {
                        assert(word@[i as int] == text@[i as int]);
                    }
                }
            }
        }
    }
    proof {
        if same && i == word.len() {
            assert(word@ =~= word@.take(i as int));
            assert(text@ =~= text@.take(i as int));
        }
    }
    same && i == word.len()
}

/// Turns a finished word into its token: a keyword where the word is one,
/// letter for letter, an identifier otherwise.
pub fn into_token(s: String) -> (t: Token)
    ensures
        t@ == word_token(s@),
{
    let word = chars_of(s.as_str());
    if spells(&word, "if") {
        Token::Kywrd(Keyword::If)
    } else if spells(&word, "else") {
        Token::Kywrd(Keyword::Else)
    } else if spells(&word, "def") {
        Token::Kywrd(Keyword::Def)
    } else if spells(&word, "return") {
        Token::Kywrd(Keyword::Return)
    } else if spells(&word, "class") {
        Token::Kywrd(Keyword::Class)
    } else if spells(&word, "None") {
        Token::Kywrd(Keyword::NoneKw)
    } else if spells(&word, "True") {
        Token::Kywrd(Keyword::True)
    } else if spells(&word, "False") {
        Token::Kywrd(Keyword::False)
    } else {
        Token::Ident(s)
    }
}

/// The token of `c`, where `c` is a token by itself.
pub fn as_symbol(c: char) -> (t: Option<Token>)
    ensures
        t == if is_symbol(c) {
            Some(Token::Symbl(c))
        } else {
            None
        },
{
    if c == '.' || c == ',' || c == ':' || c == '(' || c == ')' || c == '[' || c == ']' || c
        == '=' || c == '+' || c == '-' || c == '#' || c == '\'' || c == '\\' {
        Some(Token::Symbl(c))
    } else {
        None
    }
}

/// The lexer: it reads characters from `source` and hands out tokens.
///
/// Each line begins with a token for its indentation. A symbol that ends a
/// word is read together with the word and kept for the next call. Places
/// are counted from where the stream began to read.
#[derive(Debug)]
pub struct TokenStream<S: ParseStream<char>> {
    source: S,
    cached: VecDeque<Token>,
    file_pos: FilePos,
    line_start: bool,
}

/// The token that was read together with a word, as a sequence.
pub open spec fn extra_view(extra: Option<Token>) -> Seq<TokenView> {
    match extra {
        Some(t) => seq![t@],
        None => Seq::empty(),
    }
}

impl<S: ParseStream<char>> TokenStream<S> {
    /// What the stream holds between two calls.
    pub closed spec fn state(&self) -> LexState {
        LexState {
            cached: views(self.cached@),
            line_start: self.line_start,
            chars: self.source.upcoming(),
            pos: self.file_pos,
        }
    }

    /// Whether the counters have room for every character to come.
    spec fn roomy(&self) -> bool {
        &&& self.file_pos.col >= 1
        &&& self.file_pos.line + self.source.upcoming().len() <= usize::MAX
        &&& self.file_pos.col + self.source.upcoming().len() <= usize::MAX
        &&& 4 * self.source.upcoming().len() <= usize::MAX
    }

    /// A lexer at the start of a line, reading from `source`, which must
    /// end cleanly and hold fewer than a quarter of `usize::MAX`
    /// characters, so that every width and place can be counted.
    pub fn new(source: S) -> (t: Self)
        requires
            source.wf(),
            source.ends_cleanly(),
            4 * source.upcoming().len() < usize::MAX,
        ensures
            t.wf(),
            t.state() == (LexState {
                cached: Seq::empty(),
                line_start: true,
                chars: source.upcoming(),
                pos: FilePos::start(),
            }),
    {
        let t = Self {
            source,
            cached: VecDeque::new(),
            file_pos: FilePos::new(),
            line_start: true,
        };
        assert(views(t.cached@) =~= Seq::<TokenView>::empty());
        t
    }

    /// Reads the spaces and tabs at the cursor and returns their width.
    fn scan_indent(&mut self) -> (n: usize)
        requires
            old(self).source.wf(),
            old(self).source.ends_cleanly(),
            old(self).roomy(),
        ensures
            final(self).source.wf(),
            final(self).source.ends_cleanly(),
            final(self).roomy(),
            final(self).cached == old(self).cached,
            final(self).line_start == old(self).line_start,
            n == indent_width(
                old(self).source.upcoming().take(
                    run_len(old(self).source.upcoming(), CharClass::Indent) as int,
                ),
            ),
            final(self).source.upcoming() == old(self).source.upcoming().skip(
                run_len(old(self).source.upcoming(), CharClass::Indent) as int,
            ),
            final(self).file_pos == old(self).file_pos.after_all(
                old(self).source.upcoming().take(
                    run_len(old(self).source.upcoming(), CharClass::Indent) as int,
                ),
            ),
    {
        let ghost chars = self.source.upcoming();
        let ghost mut k: int = 0;
        let mut n: usize = 0;
        let mut more = true;
        proof {
            assert(chars.skip(0) =~= chars);
            assert(chars.take(0) =~= Seq::<char>::empty());
        }
        while more
            invariant
                self.source.wf(),
                self.source.ends_cleanly(),
                self.roomy(),
                self.cached == old(self).cached,
                self.line_start == old(self).line_start,
                0 <= k <= chars.len(),
                4 * chars.len() <= usize::MAX,
                self.source.upcoming() == chars.skip(k),
                forall|j: int| 0 <= j < k ==> in_class(#[trigger] chars[j], CharClass::Indent),
                n == indent_width(chars.take(k)),
                n <= 4 * k,
                self.file_pos == old(self).file_pos.after_all(chars.take(k)),
                !more ==> k == chars.len() || !in_class(chars[k], CharClass::Indent),
            decreases chars.len() - k, if more { 1nat } else { 0nat },
        {
            let space = vec![' '];
            let tab = vec!['\t'];
            proof {
                assert(views(space@) =~= seq![' ']);
                assert(views(tab@) =~= seq!['\t']);
                if k < chars.len() {
                    assert(chars.skip(k)[0] == chars[k]);
                    assert(chars.take(k + 1).drop_last() =~= chars.take(k));
                    assert(chars.skip(k).skip(1) =~= chars.skip(k + 1));
                    lemma_after_all_push(old(self).file_pos, chars.take(k), chars[k]);
                    assert(chars.take(k).push(chars[k]) =~= chars.take(k + 1));
                    if chars[k] == ' ' {
                        assert(seq![' '] =~= chars.skip(k).take(1));
                    }
                    if chars[k] == '\t' {
                        assert(seq!['\t'] =~= chars.skip(k).take(1));
                    }
                }
            }
            if self.source.try_match(space).is_ok() {
                proof {
                    assert(chars.skip(k).subrange(0, 1)[0] == seq![' '][0]);
                    k = k + 1;
                }
                n += 1;
                self.file_pos.advance(' ');
            } else if self.source.try_match(tab).is_ok() {
                proof {
                    assert(chars.skip(k).subrange(0, 1)[0] == seq!['\t'][0]);
                    k = k + 1;
                }
                n += 4;
                self.file_pos.advance('\t');
            } else {
                more = false;
            }
        }
        proof {
            lemma_run_len_is(chars, CharClass::Indent, k as nat);
        }
        n
    }

    /// Reads the characters of one token, as [`crate::parser::scan::scan`]
    /// says, and hands out the token together with the symbol that ended
    /// it, if one did. The tokens read ahead are left alone.
    fn scan(&mut self) -> (r: ParseResult<(Token, Option<Token>)>)
        requires
            old(self).wf(),
        ensures
            final(self).wf(),
            final(self).state() == old(self).state().scanned(),
            match r {
                Ok((t, extra)) => {
                    &&& old(self).state().scan_result() == Ok::<TokenView, ParseErrorView>(t@)
                    &&& extra_view(extra) == old(self).state().step().extra()
                },
                Err(e) => old(self).state().scan_result() == Err::<TokenView, ParseErrorView>(e@),
            },
    {
        let ghost chars = self.source.upcoming();
        let ghost start = self.file_pos;
        if self.line_start {
            self.line_start = false;
            let n = self.scan_indent();
            return Ok((Token::WS(n), None));
        }
        let mut built = String::new();
        let ghost mut b: int = 0;
        let ghost mut w: int = 0;
        proof {
            assert(chars.skip(0) =~= chars);
            assert(chars.take(0) =~= Seq::<char>::empty());
            assert(chars.subrange(0, 0) =~= Seq::<char>::empty());
        }
        loop
            invariant
                self.source.wf(),
                self.source.ends_cleanly(),
                self.roomy(),
                self.cached == old(self).cached,
                !self.line_start,
                !old(self).line_start,
                chars == old(self).source.upcoming(),
                start == old(self).file_pos,
                0 <= b,
                0 <= w,
                b + w <= chars.len(),
                self.source.upcoming() == chars.skip(b + w),
                forall|j: int| 0 <= j < b ==> in_class(#[trigger] chars[j], CharClass::Blank),
                forall|j: int| b <= j < b + w ==> is_word(#[trigger] chars[j]),
                built@ == chars.subrange(b, b + w),
                self.file_pos == start.after_all(chars.take(b + w)),
            decreases chars.len() - b - w,
        {
            let ghost at_len = b + w;
            proof {
                if w > 0 {
                    assert(is_word(chars[b]));
                    lemma_run_len_is(chars, CharClass::Blank, b as nat);
                    assert forall|j: int| 0 <= j < w implies in_class(
                        #[trigger] chars.skip(b)[j],
                        CharClass::Word,
                    ) by {
                        assert(chars.skip(b)[j] == chars[b + j]);
                    }
                    assert(chars.skip(b).take(w) =~= chars.subrange(b, b + w));
                }
                if at_len < chars.len() {
                    assert(chars.skip(at_len)[0] == chars[at_len]);
                    assert(chars.skip(at_len).skip(1) =~= chars.skip(at_len + 1));
                    lemma_after_all_push(start, chars.take(at_len), chars[at_len]);
                    assert(chars.take(at_len).push(chars[at_len]) =~= chars.take(at_len + 1));
                    assert(chars.skip(b)[w] == chars[at_len]);
                }
            }
            match self.source.next() {
                Err(_) => {
                    proof {
                        assert(chars.skip(at_len).len() == 0);
                        if w > 0 {
                            lemma_run_len_is(chars.skip(b), CharClass::Word, w as nat);
                        } else {
                            lemma_run_len_is(chars, CharClass::Blank, b as nat);
                        }
                    }
                    if built.as_str().is_empty() {
                        return Err(ParseError::eof(self.file_pos, None));
                    } else {
                        return Ok((into_token(built), None));
                    }
                },
                Ok(c) => {
                    let at = self.file_pos;
                    self.file_pos.advance(c);
                    proof {
                        if w > 0 && !is_word(c) {
                            lemma_run_len_is(chars.skip(b), CharClass::Word, w as nat);
                        }
                        if w == 0 && !in_class(c, CharClass::Blank) {
                            lemma_run_len_is(chars, CharClass::Blank, b as nat);
                        }
                    }
                    if is_whitespace(c) {
                        if !built.as_str().is_empty() {
                            if c == '\n' {
                                self.line_start = true;
                            }
                            return Ok((into_token(built), None));
                        }
                        if c == '\n' {
                            let ghost rest = chars.skip(b + 1);
                            let n = self.scan_indent();
                            proof {
                                let k = run_len(rest, CharClass::Indent) as int;
                                lemma_run_len(rest, CharClass::Indent);
                                lemma_after_all_concat(start, chars.take(b + 1), rest.take(k));
                                assert(chars.take(b + 1) + rest.take(k) =~= chars.take(b + 1 + k));
                                assert(rest.skip(k) =~= chars.skip(b + 1 + k));
                                assert(chars.skip(b).skip(1) =~= rest);
                            }
                            return Ok((Token::WS(n), None));
                        }
                        proof {
                            b = b + 1;
                            assert(chars.subrange(b, b) =~= Seq::<char>::empty());
                        }
                    } else if let Some(tkn) = as_symbol(c) {
                        if !built.as_str().is_empty() {
                            return Ok((into_token(built), Some(tkn)));
                        } else {
                            return Ok((tkn, None));
                        }
                    } else if is_word_char(c) {
                        built.push(c);
                        proof {
                            assert(chars.subrange(b, b + w).push(c) =~= chars.subrange(b, b + w + 1));
                            w = w + 1;
                        }
                    } else {
                        return Err(ParseError::bad_char(c, at));
                    }
                },
            }
        }
    }

    /// The place of the next character.
    pub fn file_pos(&self) -> (p: FilePos)
        ensures
            p == self.state().pos,
    {
        self.file_pos
    }

    /// Hands out all the tokens up to the first failure.
    pub fn collect(self) -> (v: Vec<Token>)
        requires
            self.wf(),
        ensures
            views(v@) == self.upcoming(),
    {
        let ghost all = self.upcoming();
        let mut stream = self;
        let mut v: Vec<Token> = Vec::new();
        let mut more = true;
        proof {
            assert(views(v@) =~= Seq::<TokenView>::empty());
            assert(all.skip(0) =~= all);
        }
        while more
            invariant
                stream.wf(),
                v.len() <= all.len(),
                views(v@) == all.take(v.len() as int),
                more ==> stream.upcoming() == all.skip(v.len() as int),
                !more ==> v.len() == all.len(),
            decreases all.len() - v.len(), if more { 1nat } else { 0nat },
        {
            match stream.next() {
                Ok(t) => {
                    proof {
                                                let k = v.len() as int;
                        assert(all.skip(k)[0] == all[k]);
                        assert(all.skip(k).skip(1) =~= all.skip(k + 1));
                        assert(views(v@.push(t)) =~= views(v@).push(t@));
                        assert(all.take(k).push(all[k]) =~= all.take(k + 1));
                    }
                    v.push(t);
                },
                Err(_) => {
                    more = false;
                },
            }
        }
        proof {
            assert(all.take(v.len() as int) =~= all);
        }
        v
    }
}

/// The outcome of `next` as contracts see it.
pub open spec fn token_result(r: ParseResult<Token>) -> Result<TokenView, ParseErrorView> {
    match r {
        Ok(t) => Ok(t@),
        Err(e) => Err(e@),
    }
}

impl<S: ParseStream<char>> ParseStream<Token> for TokenStream<S> {
    closed spec fn wf(&self) -> bool {
        &&& self.source.wf()
        &&& self.source.ends_cleanly()
        &&& self.roomy()
    }

    open spec fn upcoming(&self) -> Seq<TokenView> {
        self.state().tokens()
    }

    open spec fn ends_cleanly(&self) -> bool {
        self.state().ends_cleanly()
    }

    /// Hands out the first token read ahead. With none read ahead it scans:
    /// at the start of a line for the indentation, within a line for a
    /// symbol, a word, or the indentation of the line that a newline
    /// begins. It fails with `Eof` at the end of the input, and on a
    /// character that no token can hold with a failure that names it.
    fn next(&mut self) -> (r: ParseResult<Token>)
        ensures
            final(self).state() == old(self).state().after_next(),
            token_result(r) == old(self).state().next_result(),
    {
        proof {
            lemma_next(self.state());
        }
        match self.cached.pop_front() {
            Some(item) => {
                proof {
                    assert(views(self.cached@) =~= views(old(self).cached@).skip(1));
                }
                Ok(item)
            },
            None => {
                proof {
                    assert(views(self.cached@) =~= Seq::<TokenView>::empty());
                }
                match self.scan() {
                    Ok((t, extra)) => {
                        if let Some(x) = extra {
                            self.cached.push_back(x);
                        }
                        proof {
                            assert(views(self.cached@) =~= extra_view(extra));
                        }
                        Ok(t)
                    },
                    Err(e) => {
                        proof {
                            assert(old(self).state().step().extra() =~= views(self.cached@));
                        }
                        Err(e)
                    },
                }
            },
        }
    }

    /// Reads ahead until as many tokens are there as `items` holds, then
    /// compares. A scan that fails while reading ahead is the failure of the
    /// match. Tokens that differ are a `Mismatch`, and all that was read
    /// ahead stays so. When all agree, the matched tokens are taken from
    /// the front of those read ahead.
    fn try_match(&mut self, items: Vec<Token>) -> (r: ParseResult<Vec<Token>>)
        ensures
            final(self).state() == old(self).state().after_match(views(items@)),
            match r {
                Ok(_) => old(self).state().match_failure(views(items@)) is None,
                Err(e) => old(self).state().match_failure(views(items@)) == Some(e@),
            },
    {
        let ghost want = views(items@);
        let ghost n = want.len();
        proof {
            lemma_match(self.state(), want);
        }
        while self.cached.len() < items.len()
            invariant
                self.wf(),
                want == views(items@),
                n == items.len(),
                self.state().filled(n) == old(self).state().filled(n),
                self.state().fill_failure(n) == old(self).state().fill_failure(n),
            decreases fuel(self.line_start, self.source.upcoming()),
        {
            let ghost before = self.state();
            proof {
                lemma_scan(before.line_start, before.chars);
                lemma_match(old(self).state(), want);
            }
            match self.scan() {
                Ok((t, extra)) => {
                    proof {
                        lemma_scan_decreases(before.line_start, before.chars);
                        assert(views(self.cached@.push(t)) =~= views(self.cached@).push(t@));
                    }
                    self.cached.push_back(t);
                    if let Some(x) = extra {
                        proof {
                            assert(views(self.cached@.push(x)) =~= views(self.cached@).push(x@));
                        }
                        self.cached.push_back(x);
                    }
                    proof {
                        assert(views(self.cached@) =~= before.cached.push(t@) + extra_view(extra));
                        assert(self.state() == before.pulled());
                    }
                },
                Err(e) => {
                    proof {
                        assert(self.state() == before.pulled());
                    }
                    return Err(e);
                },
            }
        }
        let ghost ahead = self.state();
        let mut i: usize = 0;
        while i < items.len()
            invariant
                self.wf(),
                self.state() == ahead,
                want == views(items@),
                n == items.len(),
                ahead.cached == views(self.cached@),
                ahead.cached.len() >= n,
                ahead == old(self).state().filled(n),
                old(self).state().fill_failure(n) is None,
                i <= items.len(),
                want.take(i as int) == ahead.cached.take(i as int),
            decreases items.len() - i,
        {
            if !self.cached[i].same(&items[i]) {
                proof {
                    lemma_common_len_is(want, ahead.cached, i as nat);
                    lemma_match(old(self).state(), want);
                }
                return Err(
                    ParseError::mismatch(
                        self.cached[i].describe(),
                        items[i].describe(),
                        self.file_pos,
                    ),
                );
            }
            proof {
                assert(want.take(i + 1) =~= want.take(i as int).push(want[i as int]));
                assert(ahead.cached.take(i + 1) =~= ahead.cached.take(i as int).push(
                    ahead.cached[i as int],
                ));
            }
            i += 1;
        }
        proof {
            lemma_common_len_is(want, ahead.cached, n);
            assert(ahead.cached.skip(0) =~= ahead.cached);
        }
        let mut j: usize = 0;
        while j < items.len()
            invariant
                self.wf(),
                n == items.len(),
                j <= items.len(),
                ahead.cached.len() >= n,
                views(self.cached@) == ahead.cached.skip(j as int),
                self.state() == (LexState { cached: ahead.cached.skip(j as int), ..ahead }),
            decreases items.len() - j,
        {
            let ghost prev = self.cached@;
            let gone = self.cached.pop_front();
            proof {
                assert(views(self.cached@) =~= views(prev).skip(1));
                assert(ahead.cached.skip(j as int).skip(1) =~= ahead.cached.skip(j + 1));
            }
            j += 1;
        }
        Ok(items)
    }
}

} // verus!
