//! The display form of tokens, commands and programs: the tokens of a
//! command separated by single spaces, string literals quoted again with
//! their special characters escaped, one command per line.

use crate::syntax::{CommandView, Token};
use crate::text::push_char;
use vstd::prelude::*;

verus! {

/// How one character of a string literal is written between the quotes.
pub open spec fn escape_char(c: char) -> Seq<char> {
    if c == '"' {
        seq!['\\', '"']
    } else if c == '\\' {
        seq!['\\', '\\']
    } else if c == '\n' {
        seq!['\\', 'n']
    } else if c == '\t' {
        seq!['\\', 't']
    } else if c == '\r' {
        seq!['\\', 'r']
    } else if c == '\0' {
        seq!['\\', '0']
    } else {
        seq![c]
    }
}

/// How the text of a string literal is written between the quotes.
pub open spec fn escape(text: Seq<char>) -> Seq<char>
    decreases text.len(),
{
    if text.len() == 0 {
        Seq::empty()
    } else {
        escape_char(text[0]) + escape(text.drop_first())
    }
}

/// The display form of a token.
pub open spec fn render_token(t: Token) -> Seq<char> {
    if t.is_string {
        seq!['"'] + escape(t.text) + seq!['"']
    } else {
        t.text
    }
}

/// The display form of a command: its tokens, separated by single spaces.
pub open spec fn render_tokens(tokens: Seq<Token>) -> Seq<char>
    decreases tokens.len(),
{
    if tokens.len() == 0 {
        Seq::empty()
    } else if tokens.len() == 1 {
        render_token(tokens[0])
    } else {
        render_token(tokens[0]) + seq![' '] + render_tokens(tokens.drop_first())
    }
}

/// The display form of a program: each command on a line of its own.
pub open spec fn render_program(commands: Seq<CommandView>) -> Seq<char>
    decreases commands.len(),
{
    if commands.len() == 0 {
        Seq::empty()
    } else {
        render_tokens(commands[0].tokens) + seq!['\n'] + render_program(commands.drop_first())
    }
}

/// Escaping a text with one more character at its end.
pub proof fn lemma_escape_push(text: Seq<char>, c: char)
    ensures
        escape(text.push(c)) == escape(text) + escape_char(c),
    decreases text.len(),
{
    if text.len() == 0 {
        assert(text.push(c).drop_first() =~= Seq::<char>::empty());
        assert(escape(text.push(c)) =~= escape_char(c) + escape(Seq::<char>::empty()));
        assert(escape(text) + escape_char(c) =~= escape_char(c));
    } else {
        assert(text.push(c).drop_first() =~= text.drop_first().push(c));
        lemma_escape_push(text.drop_first(), c);
        assert(escape_char(text[0]) + (escape(text.drop_first()) + escape_char(c)) =~= (
        escape_char(text[0]) + escape(text.drop_first())) + escape_char(c));
    }
}

/// The display form of a command with one more token at its end.
pub proof fn lemma_render_tokens_push(tokens: Seq<Token>, t: Token)
    ensures
        render_tokens(tokens.push(t)) == if tokens.len() == 0 {
            render_token(t)
        } else {
            render_tokens(tokens) + seq![' '] + render_token(t)
        },
    decreases tokens.len(),
{
    let pushed = tokens.push(t);
    if tokens.len() == 0 {
        assert(pushed.len() == 1 && pushed[0] == t);
    } else if tokens.len() == 1 {
        assert(pushed.drop_first() =~= seq![t]);
        assert(pushed[0] == tokens[0]);
        assert(seq![t].len() == 1 && seq![t][0] == t);
        assert(render_tokens(seq![t]) == render_token(t));
        assert(render_tokens(pushed) == render_token(tokens[0]) + seq![' '] + render_tokens(
            seq![t],
        ));
    } else {
        let rest = tokens.drop_first();
        assert(pushed.drop_first() =~= rest.push(t));
        assert(pushed[0] == tokens[0]);
        lemma_render_tokens_push(rest, t);
        assert(render_tokens(pushed) == render_token(tokens[0]) + seq![' '] + render_tokens(
            rest.push(t),
        ));
        assert(render_token(tokens[0]) + seq![' '] + (render_tokens(rest) + seq![' ']
            + render_token(t)) =~= (render_token(tokens[0]) + seq![' '] + render_tokens(rest))
            + seq![' '] + render_token(t));
    }
}

/// The display form of a program with one more command at its end.
pub proof fn lemma_render_program_push(commands: Seq<CommandView>, c: CommandView)
    ensures
        render_program(commands.push(c)) == render_program(commands) + render_tokens(c.tokens)
            + seq!['\n'],
    decreases commands.len(),
{
    if commands.len() == 0 {
        assert(commands.push(c).drop_first() =~= Seq::<CommandView>::empty());
        assert(render_program(commands.push(c)) =~= render_tokens(c.tokens) + seq!['\n']
            + render_program(Seq::<CommandView>::empty()));
        assert(render_program(commands) + render_tokens(c.tokens) + seq!['\n'] =~= render_tokens(
            c.tokens,
        ) + seq!['\n']);
    } else {
        assert(commands.push(c).drop_first() =~= commands.drop_first().push(c));
        lemma_render_program_push(commands.drop_first(), c);
        let head = render_tokens(commands[0].tokens) + seq!['\n'];
        let tail = render_program(commands.drop_first());
        let last = render_tokens(c.tokens) + seq!['\n'];
        assert(head + (tail + render_tokens(c.tokens) + seq!['\n']) =~= (head + tail)
            + render_tokens(c.tokens) + seq!['\n']);
    }
}

/// Appends to `out` the way `c` is written between the quotes of a literal.
pub fn push_escaped_char(out: &mut String, c: char)
    ensures
        final(out)@ == old(out)@ + escape_char(c),
{
    if c == '"' {
        push_char(out, '\\');
        push_char(out, '"');
    } else if c == '\\' {
        push_char(out, '\\');
        push_char(out, '\\');
    } else if c == '\n' {
        push_char(out, '\\');
        push_char(out, 'n');
    } else if c == '\t' {
        push_char(out, '\\');
        push_char(out, 't');
    } else if c == '\r' {
        push_char(out, '\\');
        push_char(out, 'r');
    } else if c == '\0' {
        push_char(out, '\\');
        push_char(out, '0');
    } else {
        push_char(out, c);
    }
    assert(out@ =~= old(out)@ + escape_char(c));
}

/// Appends to `out` the display form of a token with the text `text`.
pub fn push_token(out: &mut String, text: &Vec<char>, is_string: bool)
    ensures
        final(out)@ == old(out)@ + render_token(Token { text: text@, is_string }),
{
    if is_string {
        push_char(out, '"');
    }
    let mut i: usize = 0;
    let ghost base = out@;
    proof {
        assert(text@.take(0) =~= Seq::<char>::empty());
        assert(base + Seq::<char>::empty() =~= base);
    }
    while i < text.len()
        invariant
            i <= text@.len(),
            out@ == base + if is_string {
                escape(text@.take(i as int))
            } else {
                text@.take(i as int)
            },
        decreases text@.len() - i,
    {
        proof {
            assert(text@.take(i + 1) =~= text@.take(i as int).push(text@[i as int]));
            lemma_escape_push(text@.take(i as int), text@[i as int]);
        }
        if is_string {
            push_escaped_char(out, text[i]);
        } else {
            push_char(out, text[i]);
        }
        i += 1;
        assert(out@ =~= base + if is_string {
            escape(text@.take(i as int))
        } else {
            text@.take(i as int)
        });
    }
    proof {
        assert(text@.take(i as int) =~= text@);
    }
    if is_string {
        push_char(out, '"');
    }
    assert(out@ =~= old(out)@ + render_token(Token { text: text@, is_string }));
}

} // verus!
