//! Parsing the display form of a parsed program gives the same commands
//! again: the same tokens in the same order, one command per line.

use crate::render::{escape, escape_char, render_program, render_token, render_tokens};
use crate::syntax::{
    after, closed, ends_word, is_blank, lemma_quoted_bound, lemma_word_len_bound, lex, parse_spec,
    quoted, unescape, word_len, CommandView, Failure, Quoted, Token,
};
use vstd::prelude::*;

verus! {

/// A text that reads back as one bare word: not empty, without blank or
/// line end, and not beginning with a quote.
pub open spec fn valid_word(text: Seq<char>) -> bool {
    &&& text.len() > 0
    &&& text[0] != '"'
    &&& forall|k: int| 0 <= k < text.len() ==> !ends_word(#[trigger] text[k])
}

/// A token as parsing makes them: a string literal with any text, or a bare
/// word with the text of one.
pub open spec fn valid_token(t: Token) -> bool {
    t.is_string || valid_word(t.text)
}

/// Tokens as parsing makes them.
pub open spec fn valid_tokens(tokens: Seq<Token>) -> bool {
    forall|k: int| 0 <= k < tokens.len() ==> valid_token(#[trigger] tokens[k])
}

/// A command as parsing makes them: at least one token, at most `cap`.
pub open spec fn valid_command(c: CommandView, cap: nat) -> bool {
    1 <= c.tokens.len() <= cap && valid_tokens(c.tokens)
}

/// Commands as parsing makes them.
pub open spec fn valid_program(commands: Seq<CommandView>, cap: nat) -> bool {
    forall|i: int| 0 <= i < commands.len() ==> valid_command(#[trigger] commands[i], cap)
}

/// The tokens of each command, without the lines.
pub open spec fn structure(commands: Seq<CommandView>) -> Seq<Seq<Token>> {
    Seq::new(commands.len(), |k: int| commands[k].tokens)
}

/// `commands` as they stand when each is written on a line of its own, the
/// first on line `first`.
pub open spec fn relined(commands: Seq<CommandView>, first: nat) -> Seq<CommandView> {
    Seq::new(
        commands.len(),
        |k: int| CommandView { tokens: commands[k].tokens, line: (first + k) as nat },
    )
}

/// Whatever reading gives is made of valid commands.
pub proof fn lemma_lex_valid(s: Seq<char>, cap: nat, line: nat, cur: Seq<Token>, cur_line: nat)
    requires
        valid_tokens(cur),
        cur.len() <= cap,
    ensures
        lex(s, cap, line, cur, cur_line) matches Ok(commands) ==> valid_program(commands, cap),
    decreases s.len(),
{
    if s.len() == 0 {
    } else if s[0] == '\n' {
        lemma_lex_valid(s.skip(1), cap, line + 1, Seq::empty(), 0);
        if let Ok(rest) = lex(s.skip(1), cap, line + 1, Seq::empty(), 0) {
            let head = closed(cur, cur_line);
            assert forall|i: int| 0 <= i < (head + rest).len() implies valid_command(
                #[trigger] (head + rest)[i],
                cap,
            ) by {
                if i < head.len() {
                } else {
                    assert((head + rest)[i] == rest[i - head.len()]);
                }
            }
        }
    } else if is_blank(s[0]) {
        lemma_lex_valid(s.skip(1), cap, line, cur, cur_line);
    } else {
        let begun = if cur.len() == 0 {
            line
        } else {
            cur_line
        };
        if cur.len() >= cap {
        } else if s[0] == '"' {
            match quoted(s.skip(1)) {
                None => {},
                Some(q) => {
                    lemma_quoted_bound(s.skip(1));
                    let more = cur.push(Token { text: q.text, is_string: true });
                    assert(valid_tokens(more)) by {
                        assert forall|k: int| 0 <= k < more.len() implies valid_token(
                            #[trigger] more[k],
                        ) by {
                            if k < cur.len() {
                                assert(more[k] == cur[k]);
                            }
                        }
                    }
                    lemma_lex_valid(
                        s.skip(1 + q.consumed as int),
                        cap,
                        line + q.newlines,
                        more,
                        begun,
                    );
                },
            }
        } else {
            let n = word_len(s);
            lemma_word_len_bound(s);
            let word = s.take(n as int);
            let more = cur.push(Token { text: word, is_string: false });
            assert(valid_word(word)) by {
                assert(word[0] == s[0]);
                assert forall|k: int| 0 <= k < word.len() implies !ends_word(#[trigger] word[k]) by {
                    assert(word[k] == s[k]);
                }
            }
            assert(valid_tokens(more)) by {
                assert forall|k: int| 0 <= k < more.len() implies valid_token(
                    #[trigger] more[k],
                ) by {
                    if k < cur.len() {
                        assert(more[k] == cur[k]);
                    }
                }
            }
            lemma_lex_valid(s.skip(n as int), cap, line, more, begun);
        }
    }
}

/// Unescaping undoes escaping: what stands for `c` between quotes is `c`
/// itself, if it is nothing special, or a backslash and a character that
/// stands for `c`, and in neither case a line end.
pub proof fn lemma_escape_char(c: char)
    ensures
        escape_char(c).len() == 1 ==> escape_char(c)[0] == c && c != '"' && c != '\\' && c != '\n',
        escape_char(c).len() != 1 ==> escape_char(c).len() == 2 && escape_char(c)[0] == '\\'
            && unescape(escape_char(c)[1]) == c && escape_char(c)[1] != '\n',
{
}

/// A literal written out with `escape` and closed by a quote reads back as
/// the text that was written, whatever follows, and holds no line end.
pub proof fn lemma_quoted_escape(text: Seq<char>, rest: Seq<char>)
    ensures
        quoted(escape(text) + seq!['"'] + rest) == Some(
            Quoted { text, consumed: escape(text).len() + 1, newlines: 0 },
        ),
    decreases text.len(),
{
    let s = escape(text) + seq!['"'] + rest;
    if text.len() == 0 {
        assert(s[0] == '"');
        assert(text =~= Seq::<char>::empty());
    } else {
        let c = text[0];
        let tail = text.drop_first();
        let after_c = escape(tail) + seq!['"'] + rest;
        lemma_escape_char(c);
        lemma_quoted_escape(tail, rest);
        assert(s =~= escape_char(c) + after_c);
        assert(text =~= seq![c] + tail);
        if escape_char(c).len() == 1 {
            assert(s[0] == c);
            assert(s.skip(1) =~= after_c);
        } else {
            assert(s[0] == '\\');
            assert(s[1] == escape_char(c)[1]);
            assert(s.skip(2) =~= after_c);
        }
    }
}

/// A valid word reads back whole when a blank, a line end or the end of the
/// text follows it.
pub proof fn lemma_word_len_exact(word: Seq<char>, rest: Seq<char>)
    requires
        forall|k: int| 0 <= k < word.len() ==> !ends_word(#[trigger] word[k]),
        rest.len() == 0 || ends_word(rest[0]),
    ensures
        word_len(word + rest) == word.len(),
    decreases word.len(),
{
    let s = word + rest;
    if word.len() == 0 {
        assert(s =~= rest);
    } else {
        assert(s[0] == word[0]);
        assert(s.drop_first() =~= word.drop_first() + rest);
        assert forall|k: int| 0 <= k < word.drop_first().len() implies !ends_word(
            #[trigger] word.drop_first()[k],
        ) by {
            assert(word.drop_first()[k] == word[k + 1]);
        }
        lemma_word_len_exact(word.drop_first(), rest);
    }
}

/// The display form of a command, followed by a line end, reads back as
/// that command: its tokens join those already read on the line, and the
/// reading goes on with the next line.
pub proof fn lemma_lex_command(
    tokens: Seq<Token>,
    rest: Seq<char>,
    cap: nat,
    line: nat,
    cur: Seq<Token>,
    cur_line: nat,
)
    requires
        tokens.len() >= 1,
        valid_tokens(tokens),
        cur.len() + tokens.len() <= cap,
    ensures
        lex(render_tokens(tokens) + seq!['\n'] + rest, cap, line, cur, cur_line) == after(
            seq![
                CommandView {
                    tokens: cur + tokens,
                    line: if cur.len() == 0 {
                        line
                    } else {
                        cur_line
                    },
                },
            ],
            lex(rest, cap, line + 1, Seq::empty(), 0),
        ),
    decreases tokens.len(),
{
    let t = tokens[0];
    let begun = if cur.len() == 0 {
        line
    } else {
        cur_line
    };
    let others = tokens.drop_first();
    let tail: Seq<char> = if tokens.len() == 1 {
        seq!['\n'] + rest
    } else {
        seq![' '] + render_tokens(others) + seq!['\n'] + rest
    };
    let s = render_tokens(tokens) + seq!['\n'] + rest;
    let more = cur.push(t);
    assert(valid_token(t));
    assert(s =~= render_token(t) + tail);
    assert(tail.len() > 0 && ends_word(tail[0]));
    assert(lex(s, cap, line, cur, cur_line) == lex(tail, cap, line, more, begun)) by {
        if t.is_string {
            let body = escape(t.text);
            assert(s[0] == '"');
            assert(s.skip(1) =~= body + seq!['"'] + tail);
            lemma_quoted_escape(t.text, tail);
            let q = Quoted { text: t.text, consumed: body.len() + 1, newlines: 0 };
            assert(quoted(s.skip(1)) == Some(q));
            assert(s.skip(1 + q.consumed as int) =~= tail);
            assert(Token { text: q.text, is_string: true } == t);
        } else {
            let n = word_len(s);
            assert(s =~= t.text + tail);
            lemma_word_len_exact(t.text, tail);
            assert(s[0] == t.text[0]);
            assert(s.take(n as int) =~= t.text);
            assert(s.skip(n as int) =~= tail);
            assert(Token { text: s.take(n as int), is_string: false } == t);
        }
    }
    if tokens.len() == 1 {
        assert(tail[0] == '\n');
        assert(tail.skip(1) =~= rest);
        assert(more =~= cur + tokens);
    } else {
        assert(tail[0] == ' ');
        assert(tail.skip(1) =~= render_tokens(others) + seq!['\n'] + rest);
        assert(valid_tokens(others)) by {
            assert forall|k: int| 0 <= k < others.len() implies valid_token(
                #[trigger] others[k],
            ) by {
                assert(others[k] == tokens[k + 1]);
            }
        }
        lemma_lex_command(others, rest, cap, line, more, begun);
        assert(more + others =~= cur + tokens);
    }
}

/// The display form of valid commands reads back as those commands, one on
/// each line from `line` on.
pub proof fn lemma_lex_program(commands: Seq<CommandView>, cap: nat, line: nat)
    requires
        valid_program(commands, cap),
    ensures
        lex(render_program(commands), cap, line, Seq::empty(), 0) == Ok::<
            Seq<CommandView>,
            Failure,
        >(relined(commands, line)),
    decreases commands.len(),
{
    if commands.len() == 0 {
        assert(relined(commands, line) =~= Seq::<CommandView>::empty());
    } else {
        let first = commands[0];
        let others = commands.drop_first();
        assert(valid_command(first, cap));
        assert(valid_program(others, cap)) by {
            assert forall|i: int| 0 <= i < others.len() implies valid_command(
                #[trigger] others[i],
                cap,
            ) by {
                assert(others[i] == commands[i + 1]);
            }
        }
        lemma_lex_command(first.tokens, render_program(others), cap, line, Seq::empty(), 0);
        lemma_lex_program(others, cap, line + 1);
        assert(Seq::<Token>::empty() + first.tokens =~= first.tokens);
        assert(seq![CommandView { tokens: first.tokens, line }] + relined(others, line + 1)
            =~= relined(commands, line));
    }
}

/// Round trip: if `source` parses, the display form of its commands parses
/// too, with the same maximum of tokens, and gives the same tokens in the
/// same commands, each command on the line of its place.
pub proof fn lemma_roundtrip(source: Seq<char>, cap: nat)
    requires
        parse_spec(source, cap) is Ok,
    ensures
        parse_spec(render_program(parse_spec(source, cap)->Ok_0), cap) == Ok::<
            Seq<CommandView>,
            Failure,
        >(relined(parse_spec(source, cap)->Ok_0, 1)),
        structure(relined(parse_spec(source, cap)->Ok_0, 1)) == structure(
            parse_spec(source, cap)->Ok_0,
        ),
        valid_program(parse_spec(source, cap)->Ok_0, cap),
{
    let commands = parse_spec(source, cap)->Ok_0;
    assert(valid_tokens(Seq::<Token>::empty()));
    lemma_lex_valid(source, cap, 1, Seq::empty(), 0);
    lemma_lex_program(commands, cap, 1);
    assert(structure(relined(commands, 1)) =~= structure(commands));
}

/// The display form does not depend on the lines of the commands, so the
/// round trip holds of the commands of a source however their lines are
/// held: whatever has the tokens of the commands that `source` parses to
/// has a display form that parses back to those tokens.
pub proof fn lemma_roundtrip_held(source: Seq<char>, cap: nat, held: Seq<CommandView>)
    requires
        parse_spec(source, cap) matches Ok(commands) && structure(held) == structure(commands),
    ensures
        parse_spec(render_program(held), cap) matches Ok(again) && structure(again) == structure(
            held,
        ),
{
    let commands = parse_spec(source, cap)->Ok_0;
    lemma_roundtrip(source, cap);
    lemma_render_ignores_lines(commands, held);
}

/// Commands with the same tokens have the same display form.
pub proof fn lemma_render_ignores_lines(a: Seq<CommandView>, b: Seq<CommandView>)
    requires
        structure(a) == structure(b),
    ensures
        render_program(a) == render_program(b),
    decreases a.len(),
{
    assert(a.len() == structure(a).len());
    assert(b.len() == structure(b).len());
    if a.len() > 0 {
        assert(a[0].tokens == structure(a)[0]);
        assert(b[0].tokens == structure(b)[0]);
        assert(structure(a.drop_first()) =~= structure(b.drop_first())) by {
            assert forall|k: int| 0 <= k < a.len() - 1 implies a.drop_first()[k].tokens
                == b.drop_first()[k].tokens by {
                assert(a[k + 1].tokens == structure(a)[k + 1]);
                assert(b[k + 1].tokens == structure(b)[k + 1]);
            }
        }
        lemma_render_ignores_lines(a.drop_first(), b.drop_first());
    }
}

} // verus!
