//! Small helpers on characters and strings.
use vstd::prelude::*;
use vstd::std_specs::iter::IteratorSpec;

verus! {

/// `String::push` appends one character to the end of the string.
pub assume_specification[ String::push ](s: &mut String, ch: char)
    ensures
        final(s)@ == old(s)@.push(ch),
;

/// The characters of `text`, in order.
pub fn chars_of(text: &str) -> (v: Vec<char>)
    ensures
        v@ == text@,
{
    let mut v: Vec<char> = Vec::new();
    for c in it: text.chars()
        invariant
            it.seq() == text@,
            v@ == it.seq().take(it.index() as int),
    {
        v.push(c);
    }
    v
}

/// The decimal digit that stands for `d`.
pub open spec fn digit_char(d: nat) -> char
    recommends
        d < 10,
{
    (48 + d) as char
}

/// `n` written in decimal, without leading zeros.
pub open spec fn decimal_digits(n: nat) -> Seq<char>
    decreases n,
{
    if n < 10 {
        seq![digit_char(n)]
    } else {
        decimal_digits(n / 10).push(digit_char(n % 10))
    }
}

/// Appends `n`, written in decimal, to `out`.
pub fn push_decimal(out: &mut String, n: usize)
    ensures
        final(out)@ == old(out)@ + decimal_digits(n as nat),
    decreases n,
{
    if n >= 10 {
        push_decimal(out, n / 10);
    }
    let d: u8 = (n % 10) as u8;
    out.push((48u8 + d) as char);
    assert(final(out)@ =~= old(out)@ + decimal_digits(n as nat));
}

/// Whether `c` is white space: the characters that Unicode lists under the
/// property White_Space.
pub open spec fn is_space(c: char) -> bool {
    ||| '\u{9}' <= c <= '\u{d}'
    ||| c == ' '
    ||| c == '\u{85}'
    ||| c == '\u{a0}'
    ||| c == '\u{1680}'
    ||| '\u{2000}' <= c <= '\u{200a}'
    ||| c == '\u{2028}'
    ||| c == '\u{2029}'
    ||| c == '\u{202f}'
    ||| c == '\u{205f}'
    ||| c == '\u{3000}'
}

/// Whether `c` may stand in an identifier or keyword: an ASCII letter, an
/// ASCII digit or the underscore.
pub open spec fn is_word(c: char) -> bool {
    ||| '0' <= c <= '9'
    ||| 'a' <= c <= 'z'
    ||| 'A' <= c <= 'Z'
    ||| c == '_'
}

/// Whether `c` is one of the characters that are tokens by themselves.
pub open spec fn is_symbol(c: char) -> bool {
    ||| c == '.'
    ||| c == ','
    ||| c == ':'
    ||| c == '('
    ||| c == ')'
    ||| c == '['
    ||| c == ']'
    ||| c == '='
    ||| c == '+'
    ||| c == '-'
    ||| c == '#'
    ||| c == '\''
    ||| c == '\\'
}

pub fn is_whitespace(c: char) -> (b: bool)
    ensures
        b == is_space(c),
{
    ('\u{9}' <= c && c <= '\u{d}') || c == ' ' || c == '\u{85}' || c == '\u{a0}' || c
        == '\u{1680}' || ('\u{2000}' <= c && c <= '\u{200a}') || c == '\u{2028}' || c
        == '\u{2029}' || c == '\u{202f}' || c == '\u{205f}' || c == '\u{3000}'
}

pub fn is_word_char(c: char) -> (b: bool)
    ensures
        b == is_word(c),
{
    ('0' <= c && c <= '9') || ('a' <= c && c <= 'z') || ('A' <= c && c <= 'Z') || c == '_'
}

/// The kinds of character that the lexer reads in runs.
pub enum CharClass {
    /// The space alone.
    Space,
    /// What indents a line: space and tab.
    Indent,
    /// White space that does not end the line.
    Blank,
    /// What words are made of.
    Word,
}

/// Whether `c` belongs to `class`.
pub open spec fn in_class(c: char, class: CharClass) -> bool {
    match class {
        CharClass::Space => c == ' ',
        CharClass::Indent => c == ' ' || c == '\t',
        CharClass::Blank => is_space(c) && c != '\n',
        CharClass::Word => is_word(c),
    }
}

/// The length of the longest prefix of `s` whose characters all belong to
/// `class`.
pub open spec fn run_len(s: Seq<char>, class: CharClass) -> nat
    decreases s.len(),
{
    if s.len() == 0 || !in_class(s[0], class) {
        0
    } else {
        1 + run_len(s.skip(1), class)
    }
}

/// A run is the prefix up to the first character outside the class: `k` is
/// its length exactly when the first `k` characters belong to the class and
/// the next one, if there is one, does not.
pub proof fn lemma_run_len_is(s: Seq<char>, class: CharClass, k: nat)
    requires
        k <= s.len(),
        forall|j: int| 0 <= j < k ==> in_class(#[trigger] s[j], class),
        k == s.len() || !in_class(s[k as int], class),
    ensures
        run_len(s, class) == k,
    decreases k,
{
    if k > 0 {
        assert(in_class(s[0], class));
        assert forall|j: int| 0 <= j < k - 1 implies in_class(#[trigger] s.skip(1)[j], class) by {
            assert(s.skip(1)[j] == s[j + 1]);
        }
        lemma_run_len_is(s.skip(1), class, (k - 1) as nat);
    }
}

/// What `run_len` returns is such a length.
pub proof fn lemma_run_len(s: Seq<char>, class: CharClass)
    ensures
        run_len(s, class) <= s.len(),
        forall|j: int| 0 <= j < run_len(s, class) ==> in_class(#[trigger] s[j], class),
        run_len(s, class) == s.len() || !in_class(s[run_len(s, class) as int], class),
    decreases s.len(),
{
    if s.len() == 0 || !in_class(s[0], class) {
    } else {
        lemma_run_len(s.skip(1), class);
        let k = run_len(s.skip(1), class);
        assert forall|j: int| 0 <= j < k + 1 implies in_class(#[trigger] s[j], class) by {
            if j > 0 {
                assert(s.skip(1)[j - 1] == s[j]);
            }
        }
        if k < s.len() - 1 {
            assert(s.skip(1)[k as int] == s[k as int + 1]);
        }
    }
}

} // verus!
