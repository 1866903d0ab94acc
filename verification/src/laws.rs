//! Laws of the grammar: where the reader stands after a text, that reading
//! goes on from there whatever follows, that a string literal which is never
//! closed fails the reading at the line of its opening quote, and that a
//! command with too many tokens fails it at the line on which the command
//! begins, be it seen from where the reader stands or from what the source
//! parses to when commands may be longer.

use crate::syntax::{
    after, closed, ends_word, is_blank, lemma_after_twice, lemma_quoted_bound,
    lemma_word_len_bound, lex, parse_spec, quoted, word_len, CommandView, Failure, Fault, Token,
};
use vstd::prelude::*;

verus! {

/// The number of line ends in `s`.
pub open spec fn count_newlines(s: Seq<char>) -> nat
    decreases s.len(),
{
    if s.len() == 0 {
        0
    } else {
        count_newlines(s.drop_last()) + if s.last() == '\n' {
            1nat
        } else {
            0nat
        }
    }
}

/// The line ends of a text are those of its parts.
pub proof fn lemma_count_newlines_concat(a: Seq<char>, b: Seq<char>)
    ensures
        count_newlines(a + b) == count_newlines(a) + count_newlines(b),
    decreases b.len(),
{
    if b.len() == 0 {
        assert(a + b =~= a);
    } else {
        assert((a + b).drop_last() =~= a + b.drop_last());
        assert((a + b).last() == b.last());
        lemma_count_newlines_concat(a, b.drop_last());
    }
}

/// A text without line end counts none.
pub proof fn lemma_count_newlines_none(s: Seq<char>)
    requires
        forall|k: int| 0 <= k < s.len() ==> #[trigger] s[k] != '\n',
    ensures
        count_newlines(s) == 0,
    decreases s.len(),
{
    if s.len() > 0 {
        assert forall|k: int| 0 <= k < s.drop_last().len() implies #[trigger] s.drop_last()[k]
            != '\n' by {
            assert(s.drop_last()[k] == s[k]);
        }
        lemma_count_newlines_none(s.drop_last());
    }
}

/// The line ends of a text are those before a place and those from it on.
pub proof fn lemma_count_newlines_split(s: Seq<char>, n: int)
    requires
        0 <= n <= s.len(),
    ensures
        count_newlines(s) == count_newlines(s.take(n)) + count_newlines(s.skip(n)),
{
    assert(s =~= s.take(n) + s.skip(n));
    lemma_count_newlines_concat(s.take(n), s.skip(n));
}

/// The line ends of a text of one character.
pub proof fn lemma_count_newlines_one(c: char)
    ensures
        count_newlines(seq![c]) == if c == '\n' {
            1nat
        } else {
            0nat
        },
{
    assert(seq![c].drop_last() =~= Seq::<char>::empty());
    assert(seq![c].last() == c);
    assert(count_newlines(Seq::<char>::empty()) == 0);
}

/// A literal that is closed within `x` reads the same whatever follows `x`;
/// it ends with its closing quote, and the line ends it counts are those
/// among the characters it consumed.
pub proof fn lemma_quoted_prefix(x: Seq<char>, rest: Seq<char>)
    requires
        quoted(x) is Some,
    ensures
        quoted(x + rest) == quoted(x),
        x[quoted(x)->0.consumed - 1] == '"',
        quoted(x)->0.newlines == count_newlines(x.take(quoted(x)->0.consumed as int)),
    decreases x.len(),
{
    let s = x + rest;
    lemma_quoted_bound(x);
    let consumed = quoted(x)->0.consumed as int;
    assert(s[0] == x[0]);
    if x[0] == '"' {
        assert(x.take(1) =~= seq!['"']);
        lemma_count_newlines_one('"');
    } else if x[0] == '\\' {
        assert(s[1] == x[1]);
        assert(s.skip(2) =~= x.skip(2) + rest);
        lemma_quoted_prefix(x.skip(2), rest);
        lemma_quoted_bound(x.skip(2));
        let inner = quoted(x.skip(2))->0.consumed as int;
        assert(x.take(consumed) =~= seq![x[0]] + seq![x[1]] + x.skip(2).take(inner));
        lemma_count_newlines_concat(seq![x[0]] + seq![x[1]], x.skip(2).take(inner));
        lemma_count_newlines_concat(seq![x[0]], seq![x[1]]);
        lemma_count_newlines_one(x[0]);
        lemma_count_newlines_one(x[1]);
    } else {
        assert(s.skip(1) =~= x.skip(1) + rest);
        lemma_quoted_prefix(x.skip(1), rest);
        lemma_quoted_bound(x.skip(1));
        let inner = quoted(x.skip(1))->0.consumed as int;
        assert(x.take(consumed) =~= seq![x[0]] + x.skip(1).take(inner));
        lemma_count_newlines_concat(seq![x[0]], x.skip(1).take(inner));
        lemma_count_newlines_one(x[0]);
    }
}

/// A word that ends within `x` reads the same whatever follows `x`.
pub proof fn lemma_word_len_prefix(x: Seq<char>, rest: Seq<char>)
    requires
        word_len(x) < x.len(),
    ensures
        word_len(x + rest) == word_len(x),
    decreases x.len(),
{
    let s = x + rest;
    assert(s[0] == x[0]);
    if ends_word(x[0]) {
    } else {
        assert(s.drop_first() =~= x.drop_first() + rest);
        lemma_word_len_prefix(x.drop_first(), rest);
    }
}

/// Where the reader stands: the commands read so far, the line it is in,
/// and the tokens of the command being read with the line on which that
/// command began.
pub struct Reader {
    pub done: Seq<CommandView>,
    pub line: nat,
    pub cur: Seq<Token>,
    pub cur_line: nat,
}

/// The reader at the beginning of a source.
pub open spec fn at_start() -> Reader {
    Reader { done: Seq::empty(), line: 1, cur: Seq::empty(), cur_line: 0 }
}

/// The line on which the command began that a token read now belongs to.
pub open spec fn begun(r: Reader) -> nat {
    if r.cur.len() == 0 {
        r.line
    } else {
        r.cur_line
    }
}

/// The reader `r` with one more token in the command being read.
pub open spec fn with_token(r: Reader, t: Token) -> Reader {
    Reader { cur: r.cur.push(t), cur_line: begun(r), ..r }
}

/// Where the reader stands after reading all of `s` from where `r` stands,
/// or the first fault that it meets. The rules are those of [`lex`]; the
/// command being read at the end of `s` is left open.
pub open spec fn reach(s: Seq<char>, cap: nat, r: Reader) -> Result<Reader, Failure>
    decreases s.len(),
{
    if s.len() == 0 {
        Ok(r)
    } else if s[0] == '\n' {
        reach(
            s.skip(1),
            cap,
            Reader {
                done: r.done + closed(r.cur, r.cur_line),
                line: r.line + 1,
                cur: Seq::empty(),
                cur_line: 0,
            },
        )
    } else if is_blank(s[0]) {
        reach(s.skip(1), cap, r)
    } else if r.cur.len() >= cap {
        Err(Failure { fault: Fault::TooManyTokens, line: begun(r) })
    } else if s[0] == '"' {
        match quoted(s.skip(1)) {
            None => Err(Failure { fault: Fault::UnterminatedString, line: r.line }),
            Some(q) => {
                proof {
                    lemma_quoted_bound(s.skip(1));
                }
                reach(
                    s.skip(1 + q.consumed as int),
                    cap,
                    Reader {
                        line: r.line + q.newlines,
                        ..with_token(r, Token { text: q.text, is_string: true })
                    },
                )
            },
        }
    } else {
        let n = word_len(s);
        proof {
            lemma_word_len_bound(s);
        }
        reach(
            s.skip(n as int),
            cap,
            with_token(r, Token { text: s.take(n as int), is_string: false }),
        )
    }
}

/// The commands that a source gives when it ends where the reader stands.
pub open spec fn finished(r: Result<Reader, Failure>) -> Result<Seq<CommandView>, Failure> {
    match r {
        Ok(r) => Ok(r.done + closed(r.cur, r.cur_line)),
        Err(e) => Err(e),
    }
}

/// Reading a source to its end gives the commands that the reader has
/// when it arrives there.
pub proof fn lemma_reach_lex(s: Seq<char>, cap: nat, r: Reader)
    ensures
        finished(reach(s, cap, r)) == after(r.done, lex(s, cap, r.line, r.cur, r.cur_line)),
    decreases s.len(),
{
    if s.len() == 0 {
    } else if s[0] == '\n' {
        let next = Reader {
            done: r.done + closed(r.cur, r.cur_line),
            line: r.line + 1,
            cur: Seq::empty(),
            cur_line: 0,
        };
        lemma_reach_lex(s.skip(1), cap, next);
        lemma_after_twice(
            r.done,
            closed(r.cur, r.cur_line),
            lex(s.skip(1), cap, r.line + 1, Seq::empty(), 0),
        );
    } else if is_blank(s[0]) {
        lemma_reach_lex(s.skip(1), cap, r);
    } else if r.cur.len() >= cap {
    } else if s[0] == '"' {
        match quoted(s.skip(1)) {
            None => {},
            Some(q) => {
                lemma_quoted_bound(s.skip(1));
                lemma_reach_lex(
                    s.skip(1 + q.consumed as int),
                    cap,
                    Reader {
                        line: r.line + q.newlines,
                        ..with_token(r, Token { text: q.text, is_string: true })
                    },
                );
            },
        }
    } else {
        let n = word_len(s);
        lemma_word_len_bound(s);
        lemma_reach_lex(
            s.skip(n as int),
            cap,
            with_token(r, Token { text: s.take(n as int), is_string: false }),
        );
    }
}

/// Parsing a source gives the commands that the reader has at its end.
pub proof fn lemma_parse_by_reach(source: Seq<char>, cap: nat)
    ensures
        parse_spec(source, cap) == finished(reach(source, cap, at_start())),
{
    lemma_reach_lex(source, cap, at_start());
    if let Ok(commands) = parse_spec(source, cap) {
        assert(Seq::<CommandView>::empty() + commands =~= commands);
    }
}

/// Reading goes on from where it stands, whatever follows: if `before` is
/// empty or ends with a blank or a line end, and the reader gets through it
/// without fault, then reading `before` followed by `rest` is reading
/// `rest` from where the reader stands after `before`.
pub proof fn lemma_reach_append(before: Seq<char>, rest: Seq<char>, cap: nat, r: Reader)
    requires
        before.len() > 0 ==> ends_word(before.last()),
        reach(before, cap, r) is Ok,
    ensures
        reach(before + rest, cap, r) == reach(rest, cap, reach(before, cap, r)->Ok_0),
    decreases before.len(),
{
    let s = before + rest;
    if before.len() == 0 {
        assert(s =~= rest);
    } else {
        assert(s[0] == before[0]);
        if before[0] == '\n' || is_blank(before[0]) {
            let tail = before.skip(1);
            assert(s.skip(1) =~= tail + rest);
            if tail.len() > 0 {
                assert(tail.last() == before.last());
            }
            let next = if before[0] == '\n' {
                Reader {
                    done: r.done + closed(r.cur, r.cur_line),
                    line: r.line + 1,
                    cur: Seq::empty(),
                    cur_line: 0,
                }
            } else {
                r
            };
            lemma_reach_append(tail, rest, cap, next);
        } else if r.cur.len() >= cap {
        } else if before[0] == '"' {
            let x = before.skip(1);
            lemma_quoted_prefix(x, rest);
            lemma_quoted_bound(x);
            let q = quoted(x)->0;
            let used = 1 + q.consumed as int;
            assert(s.skip(1) =~= x + rest);
            assert(before[used - 1] == x[q.consumed - 1]);
            let tail = before.skip(used);
            assert(tail.len() > 0 && tail.last() == before.last());
            assert(s.skip(used) =~= tail + rest);
            lemma_reach_append(
                tail,
                rest,
                cap,
                Reader {
                    line: r.line + q.newlines,
                    ..with_token(r, Token { text: q.text, is_string: true })
                },
            );
        } else {
            lemma_word_len_bound(before);
            let n = word_len(before);
            if n == before.len() {
                assert(!ends_word(before[n - 1]));
            }
            lemma_word_len_prefix(before, rest);
            let tail = before.skip(n as int);
            assert(tail.len() > 0 && tail.last() == before.last());
            assert(s.skip(n as int) =~= tail + rest);
            assert(s.take(n as int) =~= before.take(n as int));
            lemma_reach_append(
                tail,
                rest,
                cap,
                with_token(r, Token { text: before.take(n as int), is_string: false }),
            );
        }
    }
}

/// The reader moves on by one line for each line end that it reads,
/// inside string literals too.
pub proof fn lemma_reach_line(s: Seq<char>, cap: nat, r: Reader)
    requires
        reach(s, cap, r) is Ok,
    ensures
        reach(s, cap, r)->Ok_0.line == r.line + count_newlines(s),
    decreases s.len(),
{
    if s.len() == 0 {
    } else if s[0] == '\n' || is_blank(s[0]) {
        let next = if s[0] == '\n' {
            Reader {
                done: r.done + closed(r.cur, r.cur_line),
                line: r.line + 1,
                cur: Seq::empty(),
                cur_line: 0,
            }
        } else {
            r
        };
        lemma_reach_line(s.skip(1), cap, next);
        lemma_count_newlines_split(s, 1);
        assert(s.take(1) =~= seq![s[0]]);
        lemma_count_newlines_one(s[0]);
    } else if s[0] == '"' {
        let x = s.skip(1);
        let q = quoted(x)->0;
        lemma_quoted_bound(x);
        lemma_quoted_prefix(x, Seq::empty());
        let used = 1 + q.consumed as int;
        lemma_reach_line(
            s.skip(used),
            cap,
            Reader {
                line: r.line + q.newlines,
                ..with_token(r, Token { text: q.text, is_string: true })
            },
        );
        lemma_count_newlines_split(s, used);
        assert(s.take(used) =~= seq!['"'] + x.take(q.consumed as int));
        lemma_count_newlines_concat(seq!['"'], x.take(q.consumed as int));
        lemma_count_newlines_one('"');
    } else {
        let n = word_len(s);
        lemma_word_len_bound(s);
        lemma_reach_line(
            s.skip(n as int),
            cap,
            with_token(r, Token { text: s.take(n as int), is_string: false }),
        );
        lemma_count_newlines_split(s, n as int);
        assert forall|k: int| 0 <= k < n implies #[trigger] s.take(n as int)[k] != '\n' by {
            assert(!ends_word(s[k]));
        }
        lemma_count_newlines_none(s.take(n as int));
    }
}

/// Wherever the reader stands when it meets an opening quote, if the
/// command being read has room for one more token and the literal is never
/// closed, the reading fails with an unterminated string at the line that
/// the reader is in.
pub proof fn lemma_unterminated_here(body: Seq<char>, cap: nat, r: Reader)
    requires
        r.cur.len() < cap,
        quoted(body) is None,
    ensures
        reach(seq!['"'] + body, cap, r) == Err::<Reader, Failure>(
            Failure { fault: Fault::UnterminatedString, line: r.line },
        ),
{
    let literal = seq!['"'] + body;
    assert(literal[0] == '"');
    assert(literal.skip(1) =~= body);
}

/// A string literal that is never closed fails the parse at the line of its
/// opening quote. Take a quote that stands where a token may begin: at the
/// beginning of the source, or after a blank or a line end. If what stands
/// before it reads without fault and leaves room for one more token in its
/// command, the source fails with an unterminated string at the line that
/// the quote stands in: the first, moved on by the line ends before the quote.
pub proof fn lemma_unterminated_string(before: Seq<char>, body: Seq<char>, cap: nat)
    requires
        before.len() > 0 ==> ends_word(before.last()),
        reach(before, cap, at_start()) matches Ok(r) && r.cur.len() < cap,
        quoted(body) is None,
    ensures
        parse_spec(before + (seq!['"'] + body), cap) == Err::<Seq<CommandView>, Failure>(
            Failure { fault: Fault::UnterminatedString, line: 1 + count_newlines(before) },
        ),
{
    let literal = seq!['"'] + body;
    let here = reach(before, cap, at_start())->Ok_0;
    lemma_reach_append(before, literal, cap, at_start());
    lemma_reach_line(before, cap, at_start());
    lemma_unterminated_here(body, cap, here);
    lemma_parse_by_reach(before + literal, cap);
}

/// Wherever the reader stands when a token begins, if the command being
/// read holds as many tokens as a command may, the reading fails with too
/// many tokens at the line on which that command began, whatever the token
/// is and whatever follows it.
pub proof fn lemma_too_many_here(rest: Seq<char>, cap: nat, r: Reader)
    requires
        r.cur.len() >= cap,
        rest.len() > 0,
        !ends_word(rest[0]),
    ensures
        reach(rest, cap, r) == Err::<Reader, Failure>(
            Failure { fault: Fault::TooManyTokens, line: begun(r) },
        ),
{
}

/// A command with one token too many fails the parse at the line on which
/// the command began. If what stands before the token reads without fault,
/// ends where a token may begin and leaves the command being read full,
/// the source fails with too many tokens at the line of that command,
/// whatever follows.
pub proof fn lemma_command_too_long(before: Seq<char>, rest: Seq<char>, cap: nat)
    requires
        before.len() > 0 ==> ends_word(before.last()),
        reach(before, cap, at_start()) matches Ok(r) && r.cur.len() >= cap,
        rest.len() > 0,
        !ends_word(rest[0]),
    ensures
        parse_spec(before + rest, cap) == Err::<Seq<CommandView>, Failure>(
            Failure {
                fault: Fault::TooManyTokens,
                line: begun(reach(before, cap, at_start())->Ok_0),
            },
        ),
{
    let here = reach(before, cap, at_start())->Ok_0;
    lemma_reach_append(before, rest, cap, at_start());
    lemma_too_many_here(rest, cap, here);
    lemma_parse_by_reach(before + rest, cap);
}

/// The place of the first of `commands` that holds more than `cap` tokens.
pub open spec fn first_over(commands: Seq<CommandView>, cap: nat) -> Option<int>
    decreases commands.len(),
{
    if commands.len() == 0 {
        None
    } else if commands[0].tokens.len() > cap {
        Some(0)
    } else {
        match first_over(commands.drop_first(), cap) {
            Some(k) => Some(k + 1),
            None => None,
        }
    }
}

/// What `first_over` finds: a command with more than `cap` tokens before
/// which every command holds at most `cap`; or nothing, and then every
/// command holds at most `cap`.
pub proof fn lemma_first_over(commands: Seq<CommandView>, cap: nat)
    ensures
        match first_over(commands, cap) {
            Some(k) => 0 <= k < commands.len() && commands[k].tokens.len() > cap && forall|j: int|
                0 <= j < k ==> (#[trigger] commands[j]).tokens.len() <= cap,
            None => forall|j: int|
                0 <= j < commands.len() ==> (#[trigger] commands[j]).tokens.len() <= cap,
        },
    decreases commands.len(),
{
    if commands.len() == 0 {
    } else if commands[0].tokens.len() > cap {
    } else {
        let others = commands.drop_first();
        lemma_first_over(others, cap);
        match first_over(others, cap) {
            Some(k) => {
                assert(commands[k + 1] == others[k]);
                assert forall|j: int| 0 <= j < k + 1 implies (#[trigger] commands[j]).tokens.len()
                    <= cap by {
                    if j > 0 {
                        assert(commands[j] == others[j - 1]);
                    }
                }
            },
            None => {
                assert forall|j: int| 0 <= j < commands.len() implies (
                #[trigger] commands[j]).tokens.len() <= cap by {
                    if j > 0 {
                        assert(commands[j] == others[j - 1]);
                    }
                }
            },
        }
    }
}

/// The command that is being read comes out first, on the line on which it
/// began, with at least the tokens read so far.
pub proof fn lemma_lex_head(s: Seq<char>, cap: nat, line: nat, cur: Seq<Token>, cur_line: nat)
    requires
        cur.len() >= 1,
        lex(s, cap, line, cur, cur_line) is Ok,
    ensures
        lex(s, cap, line, cur, cur_line)->Ok_0.len() >= 1,
        lex(s, cap, line, cur, cur_line)->Ok_0[0].line == cur_line,
        lex(s, cap, line, cur, cur_line)->Ok_0[0].tokens.len() >= cur.len(),
    decreases s.len(),
{
    if s.len() == 0 {
    } else if s[0] == '\n' {
        let rest = lex(s.skip(1), cap, line + 1, Seq::empty(), 0)->Ok_0;
        assert((closed(cur, cur_line) + rest)[0] == closed(cur, cur_line)[0]);
    } else if is_blank(s[0]) {
        lemma_lex_head(s.skip(1), cap, line, cur, cur_line);
    } else if s[0] == '"' {
        let q = quoted(s.skip(1))->0;
        lemma_quoted_bound(s.skip(1));
        lemma_lex_head(
            s.skip(1 + q.consumed as int),
            cap,
            line + q.newlines,
            cur.push(Token { text: q.text, is_string: true }),
            cur_line,
        );
    } else {
        let n = word_len(s);
        lemma_word_len_bound(s);
        lemma_lex_head(
            s.skip(n as int),
            cap,
            line,
            cur.push(Token { text: s.take(n as int), is_string: false }),
            cur_line,
        );
    }
}

/// `commands` as a reading with the maximum `cap` gives them: a fault at the
/// line of the first command that holds more than `cap` tokens, if there is
/// one.
pub open spec fn capped(commands: Seq<CommandView>, cap: nat) -> Result<Seq<CommandView>, Failure> {
    match first_over(commands, cap) {
        Some(k) => Err(Failure { fault: Fault::TooManyTokens, line: commands[k].line }),
        None => Ok(commands),
    }
}

/// Commands in front that hold no more than `cap` tokens stay in front.
pub proof fn lemma_capped_after(cur: Seq<Token>, cur_line: nat, rest: Seq<CommandView>, cap: nat)
    requires
        cur.len() <= cap,
    ensures
        capped(closed(cur, cur_line) + rest, cap) == after(
            closed(cur, cur_line),
            capped(rest, cap),
        ),
{
    let head = closed(cur, cur_line);
    let all = head + rest;
    lemma_first_over(rest, cap);
    if cur.len() > 0 {
        assert(all.drop_first() =~= rest);
        assert(all[0] == head[0]);
        if let Some(k) = first_over(rest, cap) {
            assert(all[k + 1] == rest[k]);
        }
    } else {
        assert(all =~= rest);
        assert(head + rest =~= rest);
    }
}

/// Reading with a smaller maximum: it fails at the first command that
/// holds more tokens than the smaller maximum allows, and gives the same
/// commands if there is none.
pub proof fn lemma_lex_cap(
    s: Seq<char>,
    small: nat,
    big: nat,
    line: nat,
    cur: Seq<Token>,
    cur_line: nat,
)
    requires
        small <= big,
        cur.len() <= small,
        lex(s, big, line, cur, cur_line) is Ok,
    ensures
        lex(s, small, line, cur, cur_line) == capped(lex(s, big, line, cur, cur_line)->Ok_0, small),
    decreases s.len(),
{
    let commands = lex(s, big, line, cur, cur_line)->Ok_0;
    if s.len() == 0 {
        lemma_capped_after(cur, cur_line, Seq::empty(), small);
        assert(closed(cur, cur_line) + Seq::<CommandView>::empty() =~= closed(cur, cur_line));
    } else if s[0] == '\n' {
        let rest = lex(s.skip(1), big, line + 1, Seq::empty(), 0)->Ok_0;
        lemma_lex_cap(s.skip(1), small, big, line + 1, Seq::empty(), 0);
        lemma_capped_after(cur, cur_line, rest, small);
    } else if is_blank(s[0]) {
        lemma_lex_cap(s.skip(1), small, big, line, cur, cur_line);
    } else {
        let begun = if cur.len() == 0 {
            line
        } else {
            cur_line
        };
        if s[0] == '"' {
            let q = quoted(s.skip(1))->0;
            lemma_quoted_bound(s.skip(1));
            let more = cur.push(Token { text: q.text, is_string: true });
            if cur.len() >= small {
                lemma_lex_head(s.skip(1 + q.consumed as int), big, line + q.newlines, more, begun);
            } else {
                lemma_lex_cap(
                    s.skip(1 + q.consumed as int),
                    small,
                    big,
                    line + q.newlines,
                    more,
                    begun,
                );
            }
        } else {
            let n = word_len(s);
            lemma_word_len_bound(s);
            let more = cur.push(Token { text: s.take(n as int), is_string: false });
            if cur.len() >= small {
                lemma_lex_head(s.skip(n as int), big, line, more, begun);
            } else {
                lemma_lex_cap(s.skip(n as int), small, big, line, more, begun);
            }
        }
    }
}

/// A command with too many tokens fails the parse at the line on which it
/// begins. Take a source that parses when a command may hold `big` tokens,
/// and a smaller maximum `cap`: if a command of the source holds more than
/// `cap` tokens, parsing with the maximum `cap` fails with too many tokens at
/// the line of the first such command; if none does, it gives the same
/// commands.
pub proof fn lemma_too_many_tokens(source: Seq<char>, cap: nat, big: nat)
    requires
        cap <= big,
        parse_spec(source, big) is Ok,
    ensures
        parse_spec(source, cap) == capped(parse_spec(source, big)->Ok_0, cap),
{
    lemma_lex_cap(source, cap, big, 1, Seq::empty(), 0);
}

} // verus!
