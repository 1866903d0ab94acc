//! The grammar of the command language, stated on character sequences, and
//! the scanners for its two kinds of token.
//!
//! A source is a sequence of lines. Blanks separate the tokens of a line; a
//! token that begins with a double quote is a string literal, which runs to
//! its closing quote and may span lines; any other token is a bare word,
//! which runs to the next blank or line end. A line without tokens makes no
//! command.

use crate::text::push_char;
use vstd::prelude::*;

verus! {

/// One token of a command: its text, and whether it was written as a string
/// literal.
pub struct Token {
    pub text: Seq<char>,
    pub is_string: bool,
}

/// One command: its tokens and the line on which it begins.
pub struct CommandView {
    pub tokens: Seq<Token>,
    pub line: nat,
}

/// What can be wrong with a source text.
#[derive(Clone, Copy, Debug, PartialEq, Eq, Structural)]
pub enum Fault {
    /// A string literal has no closing quote.
    UnterminatedString,
    /// A command has more tokens than the configured maximum.
    TooManyTokens,
}

/// A fault and the line that it is attributed to.
pub struct Failure {
    pub fault: Fault,
    pub line: nat,
}

/// Characters that separate tokens within a line.
pub open spec fn is_blank(c: char) -> bool {
    c == ' ' || c == '\t' || c == '\r'
}

/// Characters that end a bare word.
pub open spec fn ends_word(c: char) -> bool {
    is_blank(c) || c == '\n'
}

/// Length of the longest prefix of `s` that holds no blank and no line end.
pub open spec fn word_len(s: Seq<char>) -> nat
    decreases s.len(),
{
    if s.len() == 0 || ends_word(s[0]) {
        0
    } else {
        1 + word_len(s.drop_first())
    }
}

/// The character that a backslash followed by `c` stands for inside a string
/// literal: `\n`, `\t`, `\r` and `\0` are the usual controls, and any other
/// character stands for itself.
pub open spec fn unescape(c: char) -> char {
    if c == 'n' {
        '\n'
    } else if c == 't' {
        '\t'
    } else if c == 'r' {
        '\r'
    } else if c == '0' {
        '\0'
    } else {
        c
    }
}

/// A string literal as read from the input that follows its opening quote.
pub struct Quoted {
    /// The text of the literal, escapes resolved.
    pub text: Seq<char>,
    /// Characters read, the closing quote included.
    pub consumed: nat,
    /// Line ends among the characters read.
    pub newlines: nat,
}

/// `q` with one more character in front: `c` is the character that the
/// literal gains, `width` the number of input characters that stand for it,
/// and `breaks` tells whether a line end is among them.
pub open spec fn quoted_after(c: char, width: nat, breaks: bool, q: Option<Quoted>) -> Option<
    Quoted,
> {
    match q {
        Some(q) => Some(
            Quoted {
                text: seq![c] + q.text,
                consumed: q.consumed + width,
                newlines: q.newlines + if breaks {
                    1nat
                } else {
                    0nat
                },
            },
        ),
        None => None,
    }
}

/// Reads a string literal from `s`, the input that follows the opening quote.
/// `None` when `s` ends before the literal is closed.
pub open spec fn quoted(s: Seq<char>) -> Option<Quoted>
    decreases s.len(),
{
    if s.len() == 0 {
        None
    } else if s[0] == '"' {
        Some(Quoted { text: Seq::empty(), consumed: 1, newlines: 0 })
    } else if s[0] == '\\' {
        if s.len() < 2 {
            None
        } else {
            quoted_after(unescape(s[1]), 2, s[1] == '\n', quoted(s.skip(2)))
        }
    } else {
        quoted_after(s[0], 1, s[0] == '\n', quoted(s.skip(1)))
    }
}

/// A bare word is never longer than the input.
pub proof fn lemma_word_len_bound(s: Seq<char>)
    ensures
        word_len(s) <= s.len(),
        word_len(s) < s.len() ==> ends_word(s[word_len(s) as int]),
        forall|k: int| 0 <= k < word_len(s) ==> !ends_word(#[trigger] s[k]),
    decreases s.len(),
{
    if s.len() == 0 || ends_word(s[0]) {
    } else {
        lemma_word_len_bound(s.drop_first());
        assert forall|k: int| 0 <= k < word_len(s) implies !ends_word(#[trigger] s[k]) by {
            if k > 0 {
                assert(s[k] == s.drop_first()[k - 1]);
            }
        }
    }
}

/// A literal consumes at least its closing quote and never more than the input.
pub proof fn lemma_quoted_bound(s: Seq<char>)
    ensures
        quoted(s) matches Some(q) ==> 1 <= q.consumed <= s.len() && q.newlines <= q.consumed,
    decreases s.len(),
{
    if s.len() == 0 || s[0] == '"' {
    } else if s[0] == '\\' {
        if s.len() >= 2 {
            lemma_quoted_bound(s.skip(2));
        }
    } else {
        lemma_quoted_bound(s.skip(1));
    }
}

/// The commands that `cur` makes when a line ends: none if it holds no token.
pub open spec fn closed(cur: Seq<Token>, cur_line: nat) -> Seq<CommandView> {
    if cur.len() == 0 {
        Seq::empty()
    } else {
        seq![CommandView { tokens: cur, line: cur_line }]
    }
}

/// `r` with the commands `head` in front.
pub open spec fn after(head: Seq<CommandView>, r: Result<Seq<CommandView>, Failure>) -> Result<
    Seq<CommandView>,
    Failure,
> {
    match r {
        Ok(rest) => Ok(head + rest),
        Err(e) => Err(e),
    }
}

/// Putting `b` and then `a` in front of a result puts `a + b` in front of it.
pub proof fn lemma_after_twice(
    a: Seq<CommandView>,
    b: Seq<CommandView>,
    r: Result<Seq<CommandView>, Failure>,
)
    ensures
        after(a, after(b, r)) == after(a + b, r),
{
    match r {
        Ok(rest) => {
            assert(a + (b + rest) =~= (a + b) + rest);
        },
        Err(_) => {},
    }
}

/// Reads the rest `s` of a source. `line` is the number of the line that `s`
/// begins in, `cur` holds the tokens of the command being read, which began on
/// line `cur_line`, and `cap` is the most tokens that a command may have.
///
/// The first fault met ends the reading: a token that would be one too many
/// for its command, attributed to the line on which the command began, or a
/// string literal without closing quote, attributed to the line of its
/// opening quote.
pub open spec fn lex(s: Seq<char>, cap: nat, line: nat, cur: Seq<Token>, cur_line: nat) -> Result<
    Seq<CommandView>,
    Failure,
>
    decreases s.len(),
{
    if s.len() == 0 {
        Ok(closed(cur, cur_line))
    } else if s[0] == '\n' {
        after(closed(cur, cur_line), lex(s.skip(1), cap, line + 1, Seq::empty(), 0))
    } else if is_blank(s[0]) {
        lex(s.skip(1), cap, line, cur, cur_line)
    } else {
        let begun = if cur.len() == 0 {
            line
        } else {
            cur_line
        };
        if cur.len() >= cap {
            Err(Failure { fault: Fault::TooManyTokens, line: begun })
        } else if s[0] == '"' {
            match quoted(s.skip(1)) {
                None => Err(Failure { fault: Fault::UnterminatedString, line }),
                Some(q) => {
                    proof {
                        lemma_quoted_bound(s.skip(1));
                    }
                    lex(
                        s.skip(1 + q.consumed as int),
                        cap,
                        line + q.newlines,
                        cur.push(Token { text: q.text, is_string: true }),
                        begun,
                    )
                },
            }
        } else {
            let n = word_len(s);
            proof {
                lemma_word_len_bound(s);
            }
            lex(
                s.skip(n as int),
                cap,
                line,
                cur.push(Token { text: s.take(n as int), is_string: false }),
                begun,
            )
        }
    }
}

/// The commands of `source`, or the first fault in it; lines count from 1.
pub open spec fn parse_spec(source: Seq<char>, cap: nat) -> Result<Seq<CommandView>, Failure> {
    lex(source, cap, 1, Seq::empty(), 0)
}

/// Whether `c` is a blank.
pub fn blank(c: char) -> (b: bool)
    ensures
        b == is_blank(c),
{
    c == ' ' || c == '\t' || c == '\r'
}

/// The character that a backslash followed by `c` stands for.
pub fn unescaped(c: char) -> (r: char)
    ensures
        r == unescape(c),
{
    if c == 'n' {
        '\n'
    } else if c == 't' {
        '\t'
    } else if c == 'r' {
        '\r'
    } else if c == '0' {
        '\0'
    } else {
        c
    }
}

/// Reads the bare word that begins at `start`: its text and the index of the
/// first character after it.
pub fn scan_word(chars: &Vec<char>, start: usize) -> (r: (String, usize))
    requires
        start <= chars@.len(),
    ensures
        r.1 == start + word_len(chars@.skip(start as int)),
        r.1 <= chars@.len(),
        r.0@ == chars@.skip(start as int).take(word_len(chars@.skip(start as int)) as int),
{
    let mut text = String::new();
    let mut j: usize = start;
    proof {
        lemma_word_len_bound(chars@.skip(start as int));
        assert(chars@.subrange(start as int, start as int) =~= Seq::<char>::empty());
    }
    while j < chars.len() && !(blank(chars[j]) || chars[j] == '\n')
        invariant
            start <= j <= chars@.len(),
            text@ == chars@.subrange(start as int, j as int),
            word_len(chars@.skip(start as int)) == (j - start) + word_len(chars@.skip(j as int)),
        decreases chars@.len() - j,
    {
        proof {
            let rest = chars@.skip(j as int);
            assert(rest[0] == chars@[j as int]);
            assert(rest.drop_first() =~= chars@.skip(j + 1));
            assert(chars@.subrange(start as int, j + 1) =~= chars@.subrange(
                start as int,
                j as int,
            ).push(chars@[j as int]));
        }
        push_char(&mut text, chars[j]);
        j += 1;
    }
    proof {
        let rest = chars@.skip(j as int);
        if j < chars@.len() {
            assert(rest[0] == chars@[j as int]);
        }
        assert(word_len(rest) == 0);
        assert(chars@.skip(start as int).take(j - start) =~= chars@.subrange(
            start as int,
            j as int,
        ));
    }
    (text, j)
}

/// `q` with the text `text`, read from `consumed` characters with `newlines`
/// line ends among them, in front.
pub open spec fn quoted_extend(text: Seq<char>, consumed: nat, newlines: nat, q: Option<Quoted>)
    -> Option<Quoted> {
    match q {
        Some(q) => Some(
            Quoted {
                text: text + q.text,
                consumed: consumed + q.consumed,
                newlines: newlines + q.newlines,
            },
        ),
        None => None,
    }
}

/// Reads the string literal whose opening quote stands just before `start`:
/// its text, the index of the first character after its closing quote, and
/// the number of line ends inside it. `None` when the literal is not closed.
pub fn scan_quoted(chars: &Vec<char>, start: usize) -> (r: Option<(String, usize, usize)>)
    requires
        start <= chars@.len(),
    ensures
        match quoted(chars@.skip(start as int)) {
            Some(q) => r matches Some((text, end, newlines)) && text@ == q.text && end == start
                + q.consumed && end <= chars@.len() && newlines == q.newlines,
            None => r is None,
        },
{
    let mut text = String::new();
    let mut j: usize = start;
    let mut newlines: usize = 0;
    proof {
        lemma_quoted_bound(chars@.skip(start as int));
        let q0 = quoted(chars@.skip(start as int));
        if let Some(q) = q0 {
            assert(Seq::<char>::empty() + q.text =~= q.text);
        }
    }
    while j < chars.len()
        invariant
            start <= j <= chars@.len(),
            newlines <= j - start,
            quoted(chars@.skip(start as int)) == quoted_extend(
                text@,
                (j - start) as nat,
                newlines as nat,
                quoted(chars@.skip(j as int)),
            ),
        decreases chars@.len() - j,
    {
        let c = chars[j];
        let ghost rest = chars@.skip(j as int);
        proof {
            assert(rest[0] == c);
            lemma_quoted_bound(rest);
        }
        if c == '"' {
            proof {
                assert(text@ + Seq::<char>::empty() =~= text@);
            }
            return Some((text, j + 1, newlines));
        } else if c == '\\' {
            if j + 1 >= chars.len() {
                return None;
            }
            let d = chars[j + 1];
            proof {
                assert(rest[1] == d);
                assert(rest.skip(2) =~= chars@.skip(j + 2));
                if let Some(q) = quoted(chars@.skip(j + 2)) {
                    assert(text@.push(unescape(d)) + q.text =~= text@ + (seq![unescape(d)]
                        + q.text));
                }
            }
            push_char(&mut text, unescaped(d));
            if d == '\n' {
                newlines += 1;
            }
            j += 2;
        } else {
            proof {
                assert(rest.skip(1) =~= chars@.skip(j + 1));
                if let Some(q) = quoted(chars@.skip(j + 1)) {
                    assert(text@.push(c) + q.text =~= text@ + (seq![c] + q.text));
                }
            }
            push_char(&mut text, c);
            if c == '\n' {
                newlines += 1;
            }
            j += 1;
        }
    }
    None
}

} // verus!
