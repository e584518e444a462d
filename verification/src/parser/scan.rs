//! What the lexer does, stated on sequences of characters.
//!
//! One scan reads the characters of one token. [`scan`] says how many it
//! reads and what comes of them; [`LexState`] follows a token stream through
//! its calls.
use vstd::prelude::*;
use crate::parser::lexer::{word_token, TokenView};
use crate::parser::parse_stream::{common_len, lemma_common_len};
use crate::parser::text::{is_space, is_symbol, is_word, lemma_run_len, run_len, CharClass};
use crate::parser::{FilePos, ParseErrorView};

verus! {

/// The width of a run of indentation: 1 for each space, 4 for each tab.
pub open spec fn indent_width(s: Seq<char>) -> nat
    decreases s.len(),
{
    if s.len() == 0 {
        0
    } else {
        indent_width(s.drop_last()) + if s.last() == '\t' {
            4nat
        } else if s.last() == ' ' {
            1nat
        } else {
            0nat
        }
    }
}

/// What one scan comes to.
pub enum Outcome {
    /// A token.
    Got(TokenView),
    /// A character that no token can hold.
    Bad(char),
    /// The end of the input, with nothing read but blanks.
    End,
}

/// One scan: what it comes to, how many characters it reads, whether the
/// next scan starts a line, and the symbol that ended a word, which is the
/// next token.
pub struct Scan {
    pub outcome: Outcome,
    pub used: nat,
    pub line_start: bool,
    pub pushed: Option<char>,
}

impl Scan {
    /// The same scan after `k` characters that were read before it.
    pub open spec fn shifted(self, k: nat) -> Scan {
        Scan { used: self.used + k, ..self }
    }

    /// The token that waits behind the scan's own, if any.
    pub open spec fn extra(self) -> Seq<TokenView> {
        match self.pushed {
            Some(c) => seq![TokenView::Symbl(c)],
            None => Seq::empty(),
        }
    }
}

/// The scan at the start of a line: the leading spaces and tabs are read,
/// and their width is the token.
pub open spec fn scan_indent(chars: Seq<char>) -> Scan {
    let k = run_len(chars, CharClass::Indent);
    Scan {
        outcome: Outcome::Got(TokenView::WS(indent_width(chars.take(k as int)))),
        used: k,
        line_start: false,
        pushed: None,
    }
}

/// The scan of a word that starts at the front of `chars`: the word is the
/// longest run of word characters. The character behind it is read too:
/// white space ends the word, a symbol ends it and waits as the next token,
/// any other character spoils the scan. A word may also end with the input.
pub open spec fn scan_word(chars: Seq<char>) -> Scan {
    let w = run_len(chars, CharClass::Word);
    let token = Outcome::Got(word_token(chars.take(w as int)));
    if w >= chars.len() {
        Scan { outcome: token, used: w, line_start: false, pushed: None }
    } else {
        let d = chars[w as int];
        if is_space(d) {
            Scan { outcome: token, used: w + 1, line_start: d == '\n', pushed: None }
        } else if is_symbol(d) {
            Scan { outcome: token, used: w + 1, line_start: false, pushed: Some(d) }
        } else {
            Scan { outcome: Outcome::Bad(d), used: w + 1, line_start: false, pushed: None }
        }
    }
}

/// The scan within a line: blanks are passed over, and the first character
/// behind them decides. A newline starts a line, whose indentation is the
/// token; a symbol is a token by itself; a word character starts a word;
/// any other character spoils the scan.
pub open spec fn scan_general(chars: Seq<char>) -> Scan {
    let b = run_len(chars, CharClass::Blank);
    let rest = chars.skip(b as int);
    if rest.len() == 0 {
        Scan { outcome: Outcome::End, used: b, line_start: false, pushed: None }
    } else {
        let c = rest[0];
        if c == '\n' {
            scan_indent(rest.skip(1)).shifted(b + 1)
        } else if is_symbol(c) {
            Scan {
                outcome: Outcome::Got(TokenView::Symbl(c)),
                used: b + 1,
                line_start: false,
                pushed: None,
            }
        } else if is_word(c) {
            scan_word(rest).shifted(b)
        } else {
            Scan { outcome: Outcome::Bad(c), used: b + 1, line_start: false, pushed: None }
        }
    }
}

/// The next scan of `chars`, at the start of a line or within one.
pub open spec fn scan(line_start: bool, chars: Seq<char>) -> Scan {
    if line_start {
        scan_indent(chars)
    } else {
        scan_general(chars)
    }
}

/// A scan reads no more than there is. Within a line it reads at least one
/// character unless it meets the end, and a spoiled scan has read the
/// character that spoiled it. After an indentation the line has begun.
pub proof fn lemma_scan(line_start: bool, chars: Seq<char>)
    ensures
        scan(line_start, chars).used <= chars.len(),
        !line_start && !(scan(line_start, chars).outcome is End) ==> scan(
            line_start,
            chars,
        ).used >= 1,
        line_start ==> !scan(line_start, chars).line_start && scan(line_start, chars).outcome is Got,
{
    lemma_run_len(chars, CharClass::Indent);
    lemma_run_len(chars, CharClass::Blank);
    let b = run_len(chars, CharClass::Blank);
    let rest = chars.skip(b as int);
    if rest.len() > 0 {
        lemma_run_len(rest.skip(1), CharClass::Indent);
        lemma_run_len(rest, CharClass::Word);
    }
}

/// What decreases from one scan to the next: twice the number of
/// characters to come, and one more at the start of a line.
pub open spec fn fuel(line_start: bool, chars: Seq<char>) -> nat {
    2 * chars.len() + if line_start {
        1nat
    } else {
        0nat
    }
}

/// Every scan that gets a token leaves less to do.
pub proof fn lemma_scan_decreases(line_start: bool, chars: Seq<char>)
    requires
        scan(line_start, chars).outcome is Got,
    ensures
        fuel(scan(line_start, chars).line_start, chars.skip(scan(line_start, chars).used as int))
            < fuel(line_start, chars),
{
    lemma_scan(line_start, chars);
}

/// The tokens that scan after scan gets from `chars`, up to the first scan
/// that gets none.
pub open spec fn tokens(line_start: bool, chars: Seq<char>) -> Seq<TokenView>
    decreases fuel(line_start, chars),
{
    let sc = scan(line_start, chars);
    match sc.outcome {
        Outcome::Got(t) => {
            proof {
                lemma_scan_decreases(line_start, chars);
            }
            seq![t] + sc.extra() + tokens(sc.line_start, chars.skip(sc.used as int))
        },
        _ => Seq::empty(),
    }
}

/// Whether the first scan that gets no token meets the end of the input,
/// and not a character that no token can hold.
pub open spec fn ends_at_eof(line_start: bool, chars: Seq<char>) -> bool
    decreases fuel(line_start, chars),
{
    let sc = scan(line_start, chars);
    match sc.outcome {
        Outcome::Got(t) => {
            proof {
                lemma_scan_decreases(line_start, chars);
            }
            ends_at_eof(sc.line_start, chars.skip(sc.used as int))
        },
        Outcome::Bad(_) => false,
        Outcome::End => true,
    }
}

/// A token stream between two calls: the tokens that were read ahead, whether
/// the next scan starts a line, the characters to come, and the place of
/// the first of them.
pub struct LexState {
    pub cached: Seq<TokenView>,
    pub line_start: bool,
    pub chars: Seq<char>,
    pub pos: FilePos,
}

impl LexState {
    /// The next scan of the characters to come.
    pub open spec fn step(self) -> Scan {
        scan(self.line_start, self.chars)
    }

    /// The state behind the next scan, with the tokens read ahead as they
    /// were.
    pub open spec fn scanned(self) -> LexState {
        let sc = self.step();
        LexState {
            cached: self.cached,
            line_start: sc.line_start,
            chars: self.chars.skip(sc.used as int),
            pos: self.pos.after_all(self.chars.take(sc.used as int)),
        }
    }

    /// What the next scan hands out: its token, or the failure. A bad
    /// character is reported at its own place, the end of the input at the
    /// place behind the last character.
    pub open spec fn scan_result(self) -> Result<TokenView, ParseErrorView> {
        let sc = self.step();
        match sc.outcome {
            Outcome::Got(t) => Ok(t),
            Outcome::Bad(c) => Err(
                ParseErrorView::bad_char(c, self.pos.after_all(self.chars.take(sc.used - 1))),
            ),
            Outcome::End => Err(ParseErrorView::eof(self.scanned().pos, None)),
        }
    }

    /// What `next` hands out: the first token read ahead, or else what the
    /// next scan hands out.
    pub open spec fn next_result(self) -> Result<TokenView, ParseErrorView> {
        if self.cached.len() > 0 {
            Ok(self.cached[0])
        } else {
            self.scan_result()
        }
    }

    /// The state behind `next`: without the first token read ahead, or else
    /// behind the next scan, with the symbol that ended a word read ahead.
    pub open spec fn after_next(self) -> LexState {
        if self.cached.len() > 0 {
            LexState { cached: self.cached.skip(1), ..self }
        } else {
            LexState { cached: self.step().extra(), ..self.scanned() }
        }
    }

    /// The state behind a scan whose tokens are put behind those read
    /// ahead.
    pub open spec fn pulled(self) -> LexState {
        let sc = self.step();
        match sc.outcome {
            Outcome::Got(t) => LexState { cached: self.cached.push(t) + sc.extra(), ..self.scanned() },
            _ => self.scanned(),
        }
    }

    /// The state after reading ahead until `n` tokens are there or a scan
    /// gets none.
    pub open spec fn filled(self, n: nat) -> LexState
        decreases fuel(self.line_start, self.chars),
    {
        if self.cached.len() >= n {
            self
        } else if self.step().outcome is Got {
            proof {
                lemma_scan_decreases(self.line_start, self.chars);
            }
            self.pulled().filled(n)
        } else {
            self.pulled()
        }
    }

    /// The failure of the scan that stopped the reading ahead, if one did.
    pub open spec fn fill_failure(self, n: nat) -> Option<ParseErrorView>
        decreases fuel(self.line_start, self.chars),
    {
        if self.cached.len() >= n {
            None
        } else if self.step().outcome is Got {
            proof {
                lemma_scan_decreases(self.line_start, self.chars);
            }
            self.pulled().fill_failure(n)
        } else {
            match self.scan_result() {
                Ok(_) => None,
                Err(e) => Some(e),
            }
        }
    }

    /// Why a match of `items` fails, if it does: the scan that stopped the
    /// reading ahead failed, or the tokens read ahead differ from `items`,
    /// which is reported for the first place that differs, at the place
    /// that the reading ahead has reached.
    pub open spec fn match_failure(self, items: Seq<TokenView>) -> Option<ParseErrorView> {
        let ahead = self.filled(items.len());
        let k = common_len(items, ahead.cached);
        match self.fill_failure(items.len()) {
            Some(e) => Some(e),
            None => if k < items.len() {
                Some(
                    ParseErrorView::mismatch(
                        ahead.cached[k as int].described(),
                        items[k as int].described(),
                        ahead.pos,
                    ),
                )
            } else {
                None
            },
        }
    }

    /// The state behind a match of `items`: what was read ahead stays read
    /// ahead, and a match that succeeds takes `items` from its front.
    pub open spec fn after_match(self, items: Seq<TokenView>) -> LexState {
        let ahead = self.filled(items.len());
        if self.match_failure(items) is None {
            LexState { cached: ahead.cached.skip(items.len() as int), ..ahead }
        } else {
            ahead
        }
    }

    /// The state behind `i` calls of `next`.
    pub open spec fn after_nexts(self, i: nat) -> LexState
        decreases i,
    {
        if i == 0 {
            self
        } else {
            self.after_nexts((i - 1) as nat).after_next()
        }
    }

    /// The tokens to come: those read ahead, then those that the scans of
    /// the characters to come will get.
    pub open spec fn tokens(self) -> Seq<TokenView> {
        self.cached + tokens(self.line_start, self.chars)
    }

    /// Whether the tokens to come end with the input.
    pub open spec fn ends_cleanly(self) -> bool {
        ends_at_eof(self.line_start, self.chars)
    }
}

/// A scan that gets a token takes it, and the symbol behind it, from the
/// front of the tokens to come.
pub proof fn lemma_tokens_unfold(line_start: bool, chars: Seq<char>)
    ensures
        match scan(line_start, chars).outcome {
            Outcome::Got(t) => {
                &&& tokens(line_start, chars) == seq![t] + scan(line_start, chars).extra() + tokens(
                    scan(line_start, chars).line_start,
                    chars.skip(scan(line_start, chars).used as int),
                )
                &&& ends_at_eof(line_start, chars) == ends_at_eof(
                    scan(line_start, chars).line_start,
                    chars.skip(scan(line_start, chars).used as int),
                )
            },
            Outcome::Bad(_) => tokens(line_start, chars).len() == 0 && !ends_at_eof(
                line_start,
                chars,
            ),
            Outcome::End => {
                &&& tokens(line_start, chars).len() == 0
                &&& ends_at_eof(line_start, chars)
                &&& !line_start
                &&& chars.skip(scan(line_start, chars).used as int).len() == 0
            },
        },
{
    lemma_scan(line_start, chars);
    lemma_run_len(chars, CharClass::Blank);
}

/// Reading ahead changes nothing in the tokens to come.
pub proof fn lemma_pulled(st: LexState)
    ensures
        st.step().outcome is Got ==> st.pulled().tokens() == st.tokens() && st.pulled().ends_cleanly()
            == st.ends_cleanly(),
        st.step().outcome is End ==> st.pulled().tokens() == st.tokens() && st.ends_cleanly()
            && st.pulled().ends_cleanly() && st.tokens() == st.cached,
        st.step().outcome is Bad ==> st.tokens() == st.cached && !st.ends_cleanly()
            && st.tokens().is_prefix_of(st.pulled().tokens()),
{
    lemma_tokens_unfold(st.line_start, st.chars);
    let sc = st.step();
    let rest = tokens(sc.line_start, st.chars.skip(sc.used as int));
    match sc.outcome {
        Outcome::Got(t) => {
            assert(st.cached.push(t) + sc.extra() + rest =~= st.cached + (seq![t] + sc.extra()
                + rest));
        },
        Outcome::Bad(_) => {
            assert(st.cached + Seq::<TokenView>::empty() =~= st.cached);
            assert(st.tokens() =~= st.cached);
            assert(st.pulled().tokens().take(st.cached.len() as int) =~= st.cached);
        },
        Outcome::End => {
            let after = st.chars.skip(sc.used as int);
            assert(after.len() == 0);
            assert(run_len(after, CharClass::Blank) == 0);
            assert(after.skip(0).len() == 0);
            lemma_tokens_unfold(false, after);
            assert(st.tokens() =~= st.cached);
            assert(st.pulled().tokens() =~= st.cached);
        },
    }
}

/// `next` hands out the first of the tokens to come and leaves the others,
/// in their order. With none to come it fails: with `Eof` where the tokens
/// end with the input, and then the state has nothing to come either.
pub proof fn lemma_next(st: LexState)
    ensures
        st.next_result() is Ok <==> st.tokens().len() > 0,
        st.next_result() matches Ok(t) ==> {
            &&& t == st.tokens()[0]
            &&& st.after_next().tokens() == st.tokens().skip(1)
            &&& st.after_next().ends_cleanly() == st.ends_cleanly()
        },
        st.next_result() matches Err(e) ==> (e.kind is Eof <==> st.ends_cleanly()),
        st.next_result() is Err && st.ends_cleanly() ==> {
            &&& st.after_next().tokens() == st.tokens()
            &&& st.after_next().ends_cleanly()
        },
{
    if st.cached.len() > 0 {
        assert(st.after_next().tokens() =~= st.tokens().skip(1));
    } else {
        let empty = LexState { cached: Seq::empty(), ..st };
        assert(empty == st) by {
            assert(st.cached =~= Seq::<TokenView>::empty());
        }
        lemma_pulled(st);
        lemma_tokens_unfold(st.line_start, st.chars);
        let sc = st.step();
        match sc.outcome {
            Outcome::Got(t) => {
                assert(st.pulled().cached =~= seq![t] + sc.extra());
                assert(st.after_next().tokens() =~= st.pulled().tokens().skip(1));
                assert(st.tokens()[0] == t);
            },
            Outcome::Bad(_) => {},
            Outcome::End => {
                assert(sc.extra() =~= st.cached);
            },
        }
    }
}

/// Reading ahead for `n` tokens keeps the tokens to come as they were,
/// unless a bad character stops it: then all the tokens that were to come
/// are read ahead, and still the first to come. It is stopped only where
/// fewer than `n` tokens were to come.
pub proof fn lemma_filled(st: LexState, n: nat)
    ensures
        st.cached.is_prefix_of(st.filled(n).cached),
        st.fill_failure(n) is None ==> {
            &&& st.filled(n).cached.len() >= n
            &&& st.filled(n).tokens() == st.tokens()
            &&& st.filled(n).ends_cleanly() == st.ends_cleanly()
        },
        st.fill_failure(n) matches Some(e) ==> {
            &&& st.tokens().len() < n
            &&& st.filled(n).cached == st.tokens()
            &&& st.tokens().is_prefix_of(st.filled(n).tokens())
            &&& e.kind is Eof || e.kind is BadCharacter
            &&& e.kind is Eof <==> st.ends_cleanly()
            &&& e.kind is Eof ==> st.filled(n).tokens() == st.tokens() && st.filled(
                n,
            ).ends_cleanly()
        },
    decreases fuel(st.line_start, st.chars),
{
    if st.cached.len() >= n {
    } else {
        lemma_pulled(st);
        if st.step().outcome is Got {
            lemma_scan_decreases(st.line_start, st.chars);
            lemma_filled(st.pulled(), n);
            assert(st.cached =~= st.pulled().cached.take(st.cached.len() as int));
        } else {
        }
    }
}

/// A match succeeds exactly where its items are the first of the tokens to
/// come, and then takes them. A match that fails takes nothing: unless a
/// bad character stopped it, the tokens to come are as they were. Where as
/// many tokens were to come as the match has items, it fails only by a
/// mismatch.
pub proof fn lemma_match(st: LexState, items: Seq<TokenView>)
    ensures
        st.match_failure(items) is None <==> items.is_prefix_of(st.tokens()),
        st.match_failure(items) is None ==> {
            &&& st.after_match(items).tokens() == st.tokens().skip(items.len() as int)
            &&& st.after_match(items).ends_cleanly() == st.ends_cleanly()
        },
        st.match_failure(items) matches Some(e) ==> {
            &&& st.tokens().is_prefix_of(st.after_match(items).tokens())
            &&& e.kind is Mismatch || e.kind is Eof ==> {
                &&& st.after_match(items).tokens() == st.tokens()
                &&& st.after_match(items).ends_cleanly() == st.ends_cleanly()
            }
            &&& e.kind is Eof ==> st.ends_cleanly()
            &&& st.ends_cleanly() ==> !(e.kind is BadCharacter)
            &&& items.len() <= st.tokens().len() ==> e.kind is Mismatch
        },
{
    let n = items.len();
    let ahead = st.filled(n);
    lemma_filled(st, n);
    lemma_common_len(items, ahead.cached);
    match st.fill_failure(n) {
        Some(e) => {
            if items.is_prefix_of(st.tokens()) {
            }
        },
        None => {
            let k = common_len(items, ahead.cached);
            if items.is_prefix_of(ahead.cached) {
                assert(items.is_prefix_of(ahead.tokens())) by {
                    assert(ahead.tokens().take(n as int) =~= ahead.cached.take(n as int));
                }
                assert(st.after_match(items).tokens() =~= st.tokens().skip(n as int));
            } else {
                if items.is_prefix_of(ahead.tokens()) {
                    assert(ahead.tokens().take(n as int) =~= ahead.cached.take(n as int));
                    assert(items =~= ahead.cached.take(n as int));
                }
            }
        },
    }
}

/// Call after call, `next` hands out the tokens to come in their order:
/// after `i` calls the next one hands out the token at place `i`.
pub proof fn lemma_nexts(st: LexState, i: nat)
    requires
        i <= st.tokens().len(),
    ensures
        st.after_nexts(i).tokens() == st.tokens().skip(i as int),
        st.after_nexts(i).ends_cleanly() == st.ends_cleanly(),
        i < st.tokens().len() ==> st.after_nexts(i).next_result() == Ok::<
            TokenView,
            ParseErrorView,
        >(st.tokens()[i as int]),
    decreases i,
{
    if i == 0 {
        assert(st.tokens().skip(0) =~= st.tokens());
    } else {
        let prev = st.after_nexts((i - 1) as nat);
        lemma_nexts(st, (i - 1) as nat);
        lemma_next(prev);
        assert(st.tokens().skip(i - 1).skip(1) =~= st.tokens().skip(i as int));
    }
    lemma_next(st.after_nexts(i));
}

/// A match that fails loses no token and repeats none: the calls of `next`
/// that follow it hand out, in their order, the tokens that were to come
/// before it.
pub proof fn lemma_failed_match_keeps_tokens(st: LexState, items: Seq<TokenView>, i: nat)
    requires
        st.match_failure(items) is Some,
        i < st.tokens().len(),
    ensures
        st.after_match(items).after_nexts(i).next_result() == Ok::<TokenView, ParseErrorView>(
            st.tokens()[i as int],
        ),
{
    lemma_match(st, items);
    let behind = st.after_match(items);
    assert(behind.tokens()[i as int] == st.tokens()[i as int]) by {
        assert(behind.tokens().take(st.tokens().len() as int)[i as int] == st.tokens()[i as int]);
    }
    lemma_nexts(behind, i);
}

} // verus!
