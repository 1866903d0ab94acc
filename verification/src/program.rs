//! Programs: the commands of a source text in source order, each with its
//! tokens and location, linked to its neighbours, together with the text
//! that they were read from.

use crate::diag::{
    error_buffer, expand, format_error, room, texts, Error, ErrorView, SourceInfo,
    ERR_MALFORMED_TEXT, ERR_TOO_MANY_TOKENS, ERR_UNTERMINATED_STRING,
};
use crate::encoding::{as_text, count_line_feeds, line_feeds, valid_prefix, valid_up_to};
use crate::render::{
    lemma_render_program_push, lemma_render_tokens_push, push_token, render_program,
    render_token, render_tokens,
};
use crate::roundtrip::{
    lemma_lex_program, lemma_lex_valid, relined, valid_command, valid_program, valid_tokens,
};
use crate::syntax::{
    after, blank, closed, lemma_after_twice, lemma_word_len_bound, lex, parse_spec, quoted,
    scan_quoted, scan_word, word_len, CommandView, Failure, Fault, Token,
};
use crate::text::{chars_of, decimal, decimal_string, push_char, truncated};
use vstd::prelude::*;
use vstd::utf8::{decode_utf8, valid_utf8};

verus! {

/// The most tokens that a command may hold where the caller has no wish of
/// its own.
pub const DEFAULT_MAX_TOKENS: u16 = 64;

/// One entry of a command's token array. The entry without text is the
/// sentinel that ends the array.
#[derive(Debug)]
pub struct CmdPart {
    pub text: Option<String>,
    pub is_string: bool,
}

impl CmdPart {
    /// The token that this entry holds; the sentinel holds an empty bare word.
    pub open spec fn token(&self) -> Token {
        Token {
            text: match self.text {
                Some(t) => t@,
                None => Seq::empty(),
            },
            is_string: self.is_string,
        }
    }

    /// Whether this is the sentinel.
    pub fn is_empty(&self) -> (b: bool)
        ensures
            b == (self.text is None),
    {
        self.text.is_none()
    }

    /// Whether the token was written as a string literal.
    pub fn is_string(&self) -> (b: bool)
        ensures
            b == self.is_string,
    {
        self.is_string
    }

    /// The text of the token; empty for the sentinel.
    pub fn text(&self) -> (r: &str)
        ensures
            r@ == self.token().text,
    {
        match &self.text {
            Some(t) => t.as_str(),
            None => {
                proof {
                    reveal_strlit("");
                }
                assert(""@ =~= Seq::<char>::empty());
                ""
            },
        }
    }

    /// The display form: nothing for the sentinel, the text of a bare word,
    /// and a string literal between quotes with its special characters
    /// escaped.
    pub fn to_text(&self) -> (r: String)
        ensures
            r@ == if self.text is None {
                Seq::empty()
            } else {
                render_token(self.token())
            },
    {
        let mut r = String::new();
        match &self.text {
            Some(t) => {
                let chars = chars_of(t.as_str());
                push_token(&mut r, &chars, self.is_string);
                assert(Seq::<char>::empty() + render_token(self.token()) =~= render_token(
                    self.token(),
                ));
            },
            None => {},
        }
        r
    }
}

/// One command as the program holds it.
#[derive(Debug)]
struct Node {
    prev: Option<usize>,
    next: Option<usize>,
    source_info: SourceInfo,
    tokens: Vec<CmdPart>,
}

/// The name that locations in a parsed source carry as their file name.
pub open spec fn source_name() -> Seq<char> {
    "<input>"@
}

/// A line number as a location holds it: lines past 65535 count as 65535.
pub open spec fn saturate(n: nat) -> u16 {
    if n >= 0xFFFF {
        0xFFFFu16
    } else {
        n as u16
    }
}

/// `commands` with each line number as a location holds it.
pub open spec fn saturated(commands: Seq<CommandView>) -> Seq<CommandView> {
    Seq::new(
        commands.len(),
        |k: int|
            CommandView { tokens: commands[k].tokens, line: saturate(commands[k].line) as nat },
    )
}

/// Whether none of `commands` holds more than `cap` tokens.
pub open spec fn fits(commands: Seq<CommandView>, cap: nat) -> bool {
    forall|k: int| 0 <= k < commands.len() ==> (#[trigger] commands[k]).tokens.len() <= cap
}

/// The token array holds at least one token, then the sentinel, and no
/// sentinel before.
spec fn terminated(tokens: Seq<CmdPart>) -> bool {
    &&& tokens.len() >= 2
    &&& tokens.last().text is None
    &&& forall|k: int| 0 <= k < tokens.len() - 1 ==> (#[trigger] tokens[k]).text is Some
}

/// The tokens of a token array, the sentinel left out.
spec fn tokens_of(parts: Seq<CmdPart>, n: nat) -> Seq<Token> {
    Seq::new(n, |k: int| parts[k].token())
}

spec fn node_view(n: Node) -> CommandView {
    CommandView {
        tokens: tokens_of(n.tokens@, (n.tokens@.len() - 1) as nat),
        line: n.source_info.line as nat,
    }
}

spec fn views(nodes: Seq<Node>) -> Seq<CommandView> {
    Seq::new(nodes.len(), |k: int| node_view(nodes[k]))
}

/// Every command is linked to the one before and the one after it, the first
/// and the last to none on that side.
spec fn linked(nodes: Seq<Node>) -> bool {
    forall|k: int|
        0 <= k < nodes.len() ==> {
            &&& (#[trigger] nodes[k]).prev == if k > 0 {
                Some((k - 1) as usize)
            } else {
                None
            }
            &&& nodes[k].next == if k + 1 < nodes.len() {
                Some((k + 1) as usize)
            } else {
                None
            }
        }
}

spec fn well_formed(nodes: Seq<Node>) -> bool {
    &&& linked(nodes)
    &&& forall|k: int|
        0 <= k < nodes.len() ==> terminated((#[trigger] nodes[k]).tokens@)
            && nodes[k].source_info.file_name@ == source_name()
}

/// What a [`Program`] holds, as plain values.
pub struct ProgramView {
    /// The text that the program was read from.
    pub source: Seq<char>,
    /// The commands in source order.
    pub commands: Seq<CommandView>,
}

/// A parsed program. It owns its commands and the text they were read from.
#[derive(Debug)]
pub struct Program {
    buf: String,
    head: Option<usize>,
    nodes: Vec<Node>,
}

impl View for Program {
    type V = ProgramView;

    closed spec fn view(&self) -> ProgramView {
        ProgramView { source: self.buf@, commands: views(self.nodes@) }
    }
}

/// The code of the error that reports `fault`.
pub open spec fn fault_code(fault: Fault) -> u16 {
    match fault {
        Fault::UnterminatedString => ERR_UNTERMINATED_STRING,
        Fault::TooManyTokens => ERR_TOO_MANY_TOKENS,
    }
}

/// The message of the error that reports `fault`, before truncation.
pub open spec fn fault_message(fault: Fault, cap: u16) -> Seq<char> {
    match fault {
        Fault::UnterminatedString => expand("string literal is not closed"@, Seq::empty()),
        Fault::TooManyTokens => expand(
            "a command may hold at most {} tokens"@,
            seq![decimal(cap as nat)],
        ),
    }
}

/// The error that reports `failure` for a source read with at most `cap`
/// tokens per command, in a buffer of `capacity` bytes.
pub open spec fn parse_error(failure: Failure, cap: u16, capacity: u16) -> ErrorView {
    ErrorView {
        extra_data: 0,
        file_name: source_name(),
        line: saturate(failure.line),
        error_code: fault_code(failure.fault),
        capacity,
        reason: truncated(fault_message(failure.fault, cap), room(capacity)),
    }
}

/// The error that reports that `source` is not valid UTF-8: it points at
/// the line of the first byte at which no character is encoded.
pub open spec fn malformed_error(source: Seq<u8>, capacity: u16) -> ErrorView {
    ErrorView {
        extra_data: 0,
        file_name: source_name(),
        line: saturate(1 + line_feeds(source.take(valid_prefix(source) as int))),
        error_code: ERR_MALFORMED_TEXT,
        capacity,
        reason: truncated(expand("text is not valid UTF-8"@, Seq::empty()), room(capacity)),
    }
}

/// `line` moved on by `by` lines.
fn advance_line(line: u16, by: usize, Ghost(at): Ghost<nat>) -> (r: u16)
    requires
        line == saturate(at),
    ensures
        r == saturate(at + by as nat),
{
    if by >= (0xFFFF - line) as usize {
        0xFFFF
    } else {
        line + by as u16
    }
}

/// Builds the error that reports `fault` at `line`.
fn report(fault: Fault, line: u16, cap: u16, capacity: u16, Ghost(at): Ghost<nat>) -> (e: Error)
    requires
        line == saturate(at),
    ensures
        e@ == parse_error(Failure { fault, line: at }, cap, capacity),
{
    let mut e = error_buffer(capacity);
    let place = SourceInfo::new("<input>", line);
    match fault {
        Fault::UnterminatedString => {
            let args: Vec<String> = Vec::new();
            assert(texts(args@) =~= Seq::<Seq<char>>::empty());
            format_error(
                &mut e,
                ERR_UNTERMINATED_STRING,
                place,
                0,
                "string literal is not closed",
                &args,
            );
        },
        Fault::TooManyTokens => {
            let mut args: Vec<String> = Vec::new();
            args.push(decimal_string(cap));
            assert(texts(args@) =~= seq![decimal(cap as nat)]);
            format_error(
                &mut e,
                ERR_TOO_MANY_TOKENS,
                place,
                0,
                "a command may hold at most {} tokens",
                &args,
            );
        },
    }
    e
}

/// Ends the command whose tokens are `cur`: if it holds any, it becomes the
/// last command of `nodes`, linked to the one before it.
fn close_command(nodes: &mut Vec<Node>, cur: Vec<CmdPart>, cur_line: u16)
    requires
        well_formed(old(nodes)@),
        forall|k: int| 0 <= k < cur@.len() ==> (#[trigger] cur@[k]).text is Some,
    ensures
        well_formed(final(nodes)@),
        views(final(nodes)@) == views(old(nodes)@) + closed(
            tokens_of(cur@, cur@.len()),
            cur_line as nat,
        ),
{
    if cur.len() == 0 {
        assert(views(nodes@) + Seq::<CommandView>::empty() =~= views(nodes@));
        return ;
    }
    let ghost before = nodes@;
    let ghost words = tokens_of(cur@, cur@.len());
    let n = nodes.len();
    let mut tokens = cur;
    tokens.push(CmdPart { text: None, is_string: false });
    let prev = if n > 0 {
        nodes[n - 1].next = Some(n);
        Some(n - 1)
    } else {
        None
    };
    let node = Node { prev, next: None, source_info: SourceInfo::new("<input>", cur_line), tokens };
    proof {
        assert(tokens_of(node.tokens@, (node.tokens@.len() - 1) as nat) =~= words);
        assert(terminated(node.tokens@));
        assert forall|k: int| 0 <= k < n implies node_view(#[trigger] nodes@[k]) == node_view(
            before[k],
        ) by {}
    }
    nodes.push(node);
    proof {
        assert(views(nodes@) =~= views(before) + seq![
            CommandView { tokens: words, line: cur_line as nat },
        ]);
        assert(linked(nodes@));
    }
}

/// Saturating the lines of a sequence with one more command at its end.
proof fn lemma_saturated_add(a: Seq<CommandView>, cur: Seq<Token>, line: nat)
    ensures
        saturated(a + closed(cur, line)) == saturated(a) + closed(cur, saturate(line) as nat),
{
    assert(saturated(a + closed(cur, line)) =~= saturated(a) + closed(
        cur,
        saturate(line) as nat,
    ));
}

impl Program {
    #[verifier::type_invariant]
    spec fn inv(self) -> bool {
        &&& well_formed(self.nodes@)
        &&& self.head == if self.nodes@.len() > 0 {
            Some(0usize)
        } else {
            None
        }
        &&& forall|k: int|
            0 <= k < self.nodes@.len() ==> valid_tokens((#[trigger] views(self.nodes@)[k]).tokens)
    }

    /// Parses `source` into a program. A command may hold at most
    /// `max_tokens_per_command` tokens; an error is reported in a buffer of
    /// `error_capacity` bytes.
    ///
    /// The result is the one that [`parse_spec`] defines: the commands of
    /// `source` in source order, or the first fault, reported with its line.
    pub fn parse(source: &str, max_tokens_per_command: u16, error_capacity: u16) -> (r: Result<
        Program,
        Error,
    >)
        ensures
            match parse_spec(source@, max_tokens_per_command as nat) {
                Ok(commands) => r matches Ok(p) && p@.source == source@ && p@.commands
                    == saturated(commands),
                Err(failure) => r matches Err(e) && e@ == parse_error(
                    failure,
                    max_tokens_per_command,
                    error_capacity,
                ),
            },
            r matches Ok(p) ==> valid_program(p@.commands, max_tokens_per_command as nat),
    {
        let chars = chars_of(source);
        let cap = max_tokens_per_command;
        let mut nodes: Vec<Node> = Vec::new();
        let mut cur: Vec<CmdPart> = Vec::new();
        let mut cur_line: u16 = 0;
        let mut line: u16 = 1;
        let mut i: usize = 0;
        let ghost mut done: Seq<CommandView> = Seq::empty();
        let ghost mut at: nat = 1;
        let ghost mut cur_at: nat = 0;
        proof {
            assert(chars@.skip(0) =~= chars@);
            assert(tokens_of(cur@, cur@.len()) =~= Seq::<Token>::empty());
            assert(views(nodes@) =~= saturated(done));
            let r0 = lex(chars@, cap as nat, 1, Seq::empty(), 0);
            match r0 {
                Ok(rest) => {
                    assert(done + rest =~= rest);
                },
                Err(_) => {},
            }
        }
        while i < chars.len()
            invariant
                i <= chars@.len(),
                chars@ == source@,
                cap == max_tokens_per_command,
                line == saturate(at),
                cur_line == saturate(cur_at),
                forall|k: int| 0 <= k < cur@.len() ==> (#[trigger] cur@[k]).text is Some,
                well_formed(nodes@),
                views(nodes@) == saturated(done),
                parse_spec(source@, cap as nat) == after(
                    done,
                    lex(chars@.skip(i as int), cap as nat, at, tokens_of(cur@, cur@.len()), cur_at),
                ),
            decreases chars@.len() - i,
        {
            let c = chars[i];
            let ghost rest = chars@.skip(i as int);
            let ghost words = tokens_of(cur@, cur@.len());
            proof {
                assert(rest[0] == c);
                assert(rest.skip(1) =~= chars@.skip(i + 1));
            }
            if c == '\n' {
                proof {
                    lemma_after_twice(
                        done,
                        closed(words, cur_at),
                        lex(rest.skip(1), cap as nat, at + 1, Seq::empty(), 0),
                    );
                    lemma_saturated_add(done, words, cur_at);
                    done = done + closed(words, cur_at);
                    at = at + 1;
                    cur_at = 0;
                }
                close_command(&mut nodes, cur, cur_line);
                cur = Vec::new();
                cur_line = 0;
                line = line.saturating_add(1);
                i += 1;
                proof {
                    assert(tokens_of(cur@, cur@.len()) =~= Seq::<Token>::empty());
                }
            } else if blank(c) {
                i += 1;
            } else {
                let begun = if cur.len() == 0 {
                    line
                } else {
                    cur_line
                };
                let ghost begun_at = if cur@.len() == 0 {
                    at
                } else {
                    cur_at
                };
                if cur.len() >= cap as usize {
                    let fault = Fault::TooManyTokens;
                    return Err(report(fault, begun, cap, error_capacity, Ghost(begun_at)));
                }
                if c == '"' {
                    match scan_quoted(&chars, i + 1) {
                        None => {
                            let fault = Fault::UnterminatedString;
                            return Err(report(fault, line, cap, error_capacity, Ghost(at)));
                        },
                        Some((text, end, newlines)) => {
                            let part = CmdPart { text: Some(text), is_string: true };
                            proof {
                                let q = quoted(rest.skip(1))->0;
                                assert(rest.skip(1 + q.consumed as int) =~= chars@.skip(end as int));
                                assert(tokens_of(cur@.push(part), cur@.len() + 1) =~= words.push(
                                    part.token(),
                                ));
                            }
                            cur.push(part);
                            line = advance_line(line, newlines, Ghost(at));
                            proof {
                                at = at + newlines as nat;
                            }
                            i = end;
                        },
                    }
                } else {
                    let (text, end) = scan_word(&chars, i);
                    let part = CmdPart { text: Some(text), is_string: false };
                    proof {
                        lemma_word_len_bound(rest);
                        assert(rest.skip(word_len(rest) as int) =~= chars@.skip(end as int));
                        assert(tokens_of(cur@.push(part), cur@.len() + 1) =~= words.push(
                            part.token(),
                        ));
                    }
                    cur.push(part);
                    i = end;
                }
                cur_line = begun;
                proof {
                    cur_at = begun_at;
                }
            }
        }
        proof {
            let words = tokens_of(cur@, cur@.len());
            assert(chars@.skip(i as int).len() == 0);
            lemma_saturated_add(done, words, cur_at);
            done = done + closed(words, cur_at);
            assert(parse_spec(source@, cap as nat) == Ok::<Seq<CommandView>, Failure>(done));
        }
        close_command(&mut nodes, cur, cur_line);
        let head = if nodes.len() > 0 {
            Some(0)
        } else {
            None
        };
        proof {
            assert(valid_tokens(Seq::<Token>::empty()));
            lemma_lex_valid(source@, cap as nat, 1, Seq::empty(), 0);
            assert(nodes@.len() == saturated(done).len());
            assert forall|k: int| 0 <= k < nodes@.len() implies valid_command(
                #[trigger] views(nodes@)[k],
                cap as nat,
            ) by {
                assert(valid_command(done[k], cap as nat));
                assert(views(nodes@)[k].tokens == saturated(done)[k].tokens);
            }
        }
        Ok(Program { buf: source.to_owned(), head, nodes })
    }

    /// Parses the text that the bytes `source` encode, as [`Program::parse`]
    /// does. Bytes that are not valid UTF-8 are a parse error, reported at the
    /// line on which they go wrong.
    pub fn parse_bytes(source: &[u8], max_tokens_per_command: u16, error_capacity: u16) -> (r:
        Result<Program, Error>)
        ensures
            !valid_utf8(source@) ==> (r matches Err(e) && e@ == malformed_error(
                source@,
                error_capacity,
            )),
            valid_utf8(source@) ==> match parse_spec(
                decode_utf8(source@),
                max_tokens_per_command as nat,
            ) {
                Ok(commands) => r matches Ok(p) && p@.source == decode_utf8(source@)
                    && p@.commands == saturated(commands),
                Err(failure) => r matches Err(e) && e@ == parse_error(
                    failure,
                    max_tokens_per_command,
                    error_capacity,
                ),
            },
            r matches Ok(p) ==> valid_program(p@.commands, max_tokens_per_command as nat),
    {
        let n = valid_up_to(source);
        let text = if n == source.len() {
            as_text(source)
        } else {
            None
        };
        match text {
            Some(text) => Program::parse(text, max_tokens_per_command, error_capacity),
            None => {
                let line = count_line_feeds(source, n).saturating_add(1);
                let mut e = error_buffer(error_capacity);
                let args: Vec<String> = Vec::new();
                assert(texts(args@) =~= Seq::<Seq<char>>::empty());
                format_error(
                    &mut e,
                    ERR_MALFORMED_TEXT,
                    SourceInfo::new("<input>", line),
                    0,
                    "text is not valid UTF-8",
                    &args,
                );
                Err(e)
            },
        }
    }

    /// The first command, if the program holds any.
    pub fn first_command<'a>(&'a self) -> (r: Option<Command<'a>>)
        ensures
            r is Some <==> self@.commands.len() > 0,
            r matches Some(c) ==> c.program() == *self && c.position() == 0,
    {
        proof {
            use_type_invariant(self);
        }
        match self.head {
            Some(index) => Some(Command { program: self, index }),
            None => None,
        }
    }

    /// The command at `index` in source order, if there is one.
    pub fn command<'a>(&'a self, index: usize) -> (r: Option<Command<'a>>)
        ensures
            r is Some <==> index < self@.commands.len(),
            r matches Some(c) ==> c.program() == *self && c.position() == index,
    {
        if index < self.nodes.len() {
            Some(Command { program: self, index })
        } else {
            None
        }
    }

    /// The number of commands.
    pub fn len(&self) -> (n: usize)
        ensures
            n == self@.commands.len(),
    {
        self.nodes.len()
    }

    /// The text that the program was read from.
    pub fn source(&self) -> (r: &str)
        ensures
            r@ == self@.source,
    {
        self.buf.as_str()
    }

    /// The display form of the program: each command on a line of its own.
    ///
    /// The display form parses back to the same commands, each on the line
    /// of its place, whenever a command may hold as many tokens as the
    /// longest of them has.
    pub fn to_text(&self) -> (r: String)
        ensures
            r@ == render_program(self@.commands),
            forall|cap: nat|
                fits(self@.commands, cap) ==> #[trigger] parse_spec(r@, cap) == Ok::<
                    Seq<CommandView>,
                    Failure,
                >(relined(self@.commands, 1)),
    {
        let mut r = String::new();
        let mut k: usize = 0;
        proof {
            use_type_invariant(self);
            assert forall|cap: nat| fits(self@.commands, cap) implies #[trigger] parse_spec(
                render_program(self@.commands),
                cap,
            ) == Ok::<Seq<CommandView>, Failure>(relined(self@.commands, 1)) by {
                assert forall|i: int| 0 <= i < self@.commands.len() implies valid_command(
                    #[trigger] self@.commands[i],
                    cap,
                ) by {
                    assert(terminated(self.nodes@[i].tokens@));
                    assert(valid_tokens(views(self.nodes@)[i].tokens));
                }
                lemma_lex_program(self@.commands, cap, 1);
            }
            assert(self@.commands.take(0) =~= Seq::<CommandView>::empty());
        }
        while k < self.nodes.len()
            invariant
                k <= self.nodes@.len(),
                r@ == render_program(self@.commands.take(k as int)),
            decreases self.nodes@.len() - k,
        {
            let command = Command { program: self, index: k };
            let line = command.to_text();
            proof {
                lemma_render_program_push(self@.commands.take(k as int), self@.commands[k as int]);
                assert(self@.commands.take(k + 1) =~= self@.commands.take(k as int).push(
                    self@.commands[k as int],
                ));
            }
            r.append(line.as_str());
            push_char(&mut r, '\n');
            k += 1;
            assert(r@ =~= render_program(self@.commands.take(k as int)));
        }
        proof {
            assert(self@.commands.take(k as int) =~= self@.commands);
        }
        r
    }
}

/// A command of a program: a handle that stays valid as long as the program.
#[derive(Debug)]
pub struct Command<'p> {
    program: &'p Program,
    index: usize,
}

impl<'p> View for Command<'p> {
    type V = CommandView;

    open spec fn view(&self) -> CommandView {
        self.program()@.commands[self.position()]
    }
}

impl<'p> Command<'p> {
    #[verifier::type_invariant]
    spec fn inv(self) -> bool {
        self.index < self.program.nodes@.len()
    }

    /// The program that holds the command.
    pub closed spec fn program(&self) -> Program {
        *self.program
    }

    /// The place of the command among the commands of its program, from 0.
    pub closed spec fn position(&self) -> int {
        self.index as int
    }

    /// The place of the command among the commands of its program, from 0.
    pub fn index(&self) -> (i: usize)
        ensures
            i == self.position(),
            i < self.program()@.commands.len(),
    {
        proof {
            use_type_invariant(self);
        }
        self.index
    }

    /// The number of tokens, the sentinel not counted. A command holds at
    /// least one token.
    pub fn size(&self) -> (n: usize)
        ensures
            n == self@.tokens.len(),
            n >= 1,
    {
        proof {
            use_type_invariant(self);
            use_type_invariant(self.program);
        }
        self.program.nodes[self.index].tokens.len() - 1
    }

    /// The token at `idx`.
    pub fn part(&self, idx: usize) -> (r: &'p CmdPart)
        requires
            idx < self@.tokens.len(),
        ensures
            r.token() == self@.tokens[idx as int],
            r.text is Some,
    {
        proof {
            use_type_invariant(self);
            use_type_invariant(self.program);
        }
        &self.program.nodes[self.index].tokens[idx]
    }

    /// The name of the command: the text of its first token.
    pub fn name(&self) -> (r: &'p str)
        ensures
            r@ == self@.tokens[0].text,
    {
        proof {
            use_type_invariant(self);
            use_type_invariant(self.program);
        }
        self.program.nodes[self.index].tokens[0].text()
    }

    /// The first token of the command.
    pub fn first_word(&self) -> (r: &'p String)
        ensures
            r@ == self@.tokens[0].text,
    {
        proof {
            use_type_invariant(self);
            use_type_invariant(self.program);
        }
        self.program.nodes[self.index].tokens[0].text.as_ref().unwrap()
    }

    /// Where the command begins in the source.
    pub fn source_info(&self) -> (r: SourceInfo)
        ensures
            r.file_name@ == source_name(),
            r.line == self@.line,
    {
        proof {
            use_type_invariant(self);
            use_type_invariant(self.program);
        }
        self.program.nodes[self.index].source_info.clone()
    }

    /// The command before this one in source order.
    pub fn prev_command(&self) -> (r: Option<Command<'p>>)
        ensures
            r is Some <==> self.position() > 0,
            r matches Some(c) ==> c.program() == self.program() && c.position() == self.position()
                - 1,
    {
        proof {
            use_type_invariant(self);
            use_type_invariant(self.program);
        }
        match self.program.nodes[self.index].prev {
            Some(index) => Some(Command { program: self.program, index }),
            None => None,
        }
    }

    /// The command after this one in source order.
    pub fn next_command(&self) -> (r: Option<Command<'p>>)
        ensures
            r is Some <==> self.position() + 1 < self.program()@.commands.len(),
            r matches Some(c) ==> c.program() == self.program() && c.position() == self.position()
                + 1,
    {
        proof {
            use_type_invariant(self);
            use_type_invariant(self.program);
        }
        let count = self.program.nodes.len();
        assert(self.index + 1 <= count);
        match self.program.nodes[self.index].next {
            Some(index) => Some(Command { program: self.program, index }),
            None => None,
        }
    }

    /// The display form of the command: its tokens, separated by single
    /// spaces, string literals quoted again.
    pub fn to_text(&self) -> (r: String)
        ensures
            r@ == render_tokens(self@.tokens),
    {
        proof {
            use_type_invariant(self);
            use_type_invariant(self.program);
        }
        let parts = &self.program.nodes[self.index].tokens;
        let n = parts.len() - 1;
        let ghost words = self@.tokens;
        let mut r = String::new();
        let mut k: usize = 0;
        proof {
            assert(words.take(0) =~= Seq::<Token>::empty());
        }
        while k < n
            invariant
                k <= n,
                n == words.len(),
                n == parts@.len() - 1,
                forall|j: int| 0 <= j < n ==> (#[trigger] parts@[j]).token() == words[j],
                r@ == render_tokens(words.take(k as int)),
            decreases n - k,
        {
            let part = &parts[k];
            let chars = chars_of(part.text());
            proof {
                lemma_render_tokens_push(words.take(k as int), words[k as int]);
                assert(words.take(k + 1) =~= words.take(k as int).push(words[k as int]));
                assert(Token { text: chars@, is_string: part.is_string } == words[k as int]);
            }
            if k > 0 {
                push_char(&mut r, ' ');
            }
            push_token(&mut r, &chars, part.is_string);
            k += 1;
            assert(r@ =~= render_tokens(words.take(k as int)));
        }
        proof {
            assert(words.take(k as int) =~= words);
        }
        r
    }
}

} // verus!
