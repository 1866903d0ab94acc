//! The execution engine: a state machine over a cursor into the program.
//!
//! Before the first step the plugin's init hook produces the context of the
//! run. Each step resolves the command under the cursor against the dispatch
//! table, memoising the resolution for later visits, and invokes the
//! resolved handler. The handler names the command to continue with, or lets
//! the engine go on with the next one, or fails by writing into the shared
//! error buffer, which halts the run at once. The engine never changes the
//! order of the commands itself: any jump is directed by a handler.
//!
//! A host drives the machine step by step, and may stop between any two
//! steps: [`Program::start`], [`Machine::step`], [`Machine::finish`]. Or it
//! lets [`Program::run`] take as many steps as it allows.

use crate::diag::{
    error_buffer, expand, format_error, is_error, room, texts, Error, ErrorView,
    ERR_INVALID_JUMP, ERR_REMOVED_COMMAND, ERR_UNKNOWN_COMMAND, NO_ERROR,
};
use crate::dispatch::{resolve_spec, EntryView, Language, Resolution};
use crate::plugin::{InitStub, PCallCommandStub, Stubs};
use crate::program::{source_name, Command, Program, ProgramView};
use crate::text::truncated;
use vstd::prelude::*;

verus! {

/// A non-fatal notice: the command at `command` ran by the deprecated entry
/// at `entry` of the dispatch table.
#[derive(Clone, Copy, Debug, PartialEq, Eq, Structural)]
pub struct Advisory {
    pub command: usize,
    pub entry: usize,
}

/// Where the machine stands.
#[derive(Debug)]
pub enum State {
    /// The next step executes the command at `cursor`.
    Running { cursor: usize },
    /// The run is over: the cursor left the program, or an error halted it.
    Halted(Result<(), Error>),
}

/// What a run leaves behind.
#[derive(Debug)]
pub struct Run {
    /// Where the machine stood when the run ended. It is still running only
    /// if the steps allowed were used up.
    pub state: State,
    /// The advisories raised, in the order of the steps.
    pub advisories: Vec<Advisory>,
    /// The number of steps taken.
    pub steps: u64,
}

/// Where a step leaves the cursor.
#[derive(Clone, Copy, Debug, PartialEq, Eq, Structural)]
pub enum Step {
    /// At the command at this place.
    Continue(usize),
    /// Past the last command.
    Done,
    /// Nowhere: the place asked for is not in the program.
    Lost,
}

/// The three kinds of state of the machine.
pub enum Phase {
    Running(int),
    Success,
    Failed,
}

/// The machine as plain values.
pub struct MachineView {
    pub phase: Phase,
    /// The content of the shared error buffer.
    pub buffer: ErrorView,
    /// The resolution memoised for each command, if it was resolved yet.
    pub cache: Seq<Option<Resolution>>,
    pub advisories: Seq<Advisory>,
}

/// What the plugin answered in the course of one step.
pub struct Answers {
    /// What each router said that was asked.
    pub verdicts: Seq<bool>,
    /// The place of the command that the handler asked to continue with.
    pub next: Option<int>,
    /// The content of the shared error buffer when the handler returned.
    pub buffer: ErrorView,
}

/// The content of a fresh error buffer.
pub open spec fn blank(capacity: u16) -> ErrorView {
    ErrorView {
        extra_data: 0,
        file_name: Seq::empty(),
        line: 0,
        error_code: NO_ERROR,
        capacity,
        reason: Seq::empty(),
    }
}

/// The handler that a step invokes for a command that resolved to `r`: none
/// for an unknown or removed command, and none for an entry without handler.
pub open spec fn handler_of(r: Resolution) -> Option<PCallCommandStub> {
    match r {
        Resolution::Entry { stub, .. } => stub,
        Resolution::Fallback { fallback } => Some(fallback),
        Resolution::Removed { .. } => None,
        Resolution::Unknown => None,
    }
}

/// The advisories after a command at `command` resolved to `r`.
pub open spec fn advised(advisories: Seq<Advisory>, command: int, r: Resolution) -> Seq<Advisory> {
    match r {
        Resolution::Entry { index, deprecated, .. } => if deprecated {
            advisories.push(Advisory { command: command as usize, entry: index })
        } else {
            advisories
        },
        _ => advisories,
    }
}

/// Where the cursor goes from `cursor` when the handler asked for `next`.
pub open spec fn follow_spec(count: nat, cursor: int, next: Option<int>) -> Step {
    match next {
        Some(to) => if 0 <= to < count {
            Step::Continue(to as usize)
        } else {
            Step::Lost
        },
        None => if cursor + 1 < count {
            Step::Continue((cursor + 1) as usize)
        } else {
            Step::Done
        },
    }
}

/// The content of the error buffer after the engine reported `code` for the
/// command `name` at `line`.
pub open spec fn engine_error(
    before: ErrorView,
    code: u16,
    line: nat,
    format: Seq<char>,
    name: Seq<char>,
) -> ErrorView {
    ErrorView {
        extra_data: 0,
        file_name: source_name(),
        line: line as u16,
        error_code: code,
        capacity: before.capacity,
        reason: truncated(expand(format, seq![name]), room(before.capacity)),
    }
}

/// The machine after the handler of the command at `cursor` returned, or
/// after the command ran without one.
pub open spec fn settled(
    p: ProgramView,
    m: MachineView,
    cursor: int,
    invoked: bool,
    a: Answers,
) -> MachineView {
    let buffer = if invoked {
        a.buffer
    } else {
        m.buffer
    };
    if buffer.error_code != NO_ERROR {
        MachineView { phase: Phase::Failed, buffer, ..m }
    } else {
        match follow_spec(
            p.commands.len(),
            cursor,
            if invoked {
                a.next
            } else {
                None
            },
        ) {
            Step::Continue(to) => MachineView { phase: Phase::Running(to as int), buffer, ..m },
            Step::Done => MachineView { phase: Phase::Success, buffer, ..m },
            Step::Lost => MachineView {
                phase: Phase::Failed,
                buffer: engine_error(
                    buffer,
                    ERR_INVALID_JUMP,
                    p.commands[cursor].line,
                    "handler of {} continued at a command that the program does not hold"@,
                    p.commands[cursor].tokens[0].text,
                ),
                ..m
            },
        }
    }
}

/// How the machine `m` resolves the command at `cursor`: as its memo says,
/// if it holds a resolution of the command, and else by the table and the
/// verdicts of the routers.
pub open spec fn resolution_of(
    p: ProgramView,
    table: Seq<EntryView>,
    fallback: Option<PCallCommandStub>,
    m: MachineView,
    cursor: int,
    verdicts: Seq<bool>,
) -> Resolution {
    match m.cache[cursor] {
        Some(r) => r,
        None => resolve_spec(table, fallback, p.commands[cursor].tokens[0].text, verdicts),
    }
}

/// One step of the machine. A machine that is not running stays as it is.
/// A running one resolves the command under its cursor and remembers the
/// resolution. An unknown or removed command fails the run and no handler
/// is invoked. Otherwise a deprecated entry adds an advisory, the handler is
/// invoked if there is one, and the cursor follows it.
pub open spec fn step_spec(
    p: ProgramView,
    table: Seq<EntryView>,
    fallback: Option<PCallCommandStub>,
    m: MachineView,
    a: Answers,
) -> MachineView {
    match m.phase {
        Phase::Running(cursor) => {
            let name = p.commands[cursor].tokens[0].text;
            let r = resolution_of(p, table, fallback, m, cursor, a.verdicts);
            let noted = MachineView {
                cache: m.cache.update(cursor, Some(r)),
                advisories: advised(m.advisories, cursor, r),
                ..m
            };
            match r {
                Resolution::Unknown => MachineView {
                    phase: Phase::Failed,
                    buffer: engine_error(
                        m.buffer,
                        ERR_UNKNOWN_COMMAND,
                        p.commands[cursor].line,
                        "unknown command {}"@,
                        name,
                    ),
                    ..noted
                },
                Resolution::Removed { .. } => MachineView {
                    phase: Phase::Failed,
                    buffer: engine_error(
                        m.buffer,
                        ERR_REMOVED_COMMAND,
                        p.commands[cursor].line,
                        "removed command {}"@,
                        name,
                    ),
                    ..noted
                },
                _ => settled(p, noted, cursor, handler_of(r) is Some, a),
            }
        },
        _ => m,
    }
}

/// The machine before the first step: failed if the init hook left an error
/// in the buffer, at the first command if there is one, and else done.
/// `setup` is the content of the buffer when the init hook returned.
pub open spec fn started(p: ProgramView, init: Option<InitStub>, capacity: u16, setup: ErrorView)
    -> MachineView {
    let buffer = if init is Some {
        setup
    } else {
        blank(capacity)
    };
    MachineView {
        phase: if buffer.error_code != NO_ERROR {
            Phase::Failed
        } else if p.commands.len() > 0 {
            Phase::Running(0)
        } else {
            Phase::Success
        },
        buffer,
        cache: Seq::new(p.commands.len(), |i: int| None),
        advisories: Seq::empty(),
    }
}

/// The machine after the steps that `answers` holds the plugin's answers of.
pub open spec fn run_spec(
    p: ProgramView,
    table: Seq<EntryView>,
    fallback: Option<PCallCommandStub>,
    init: Option<InitStub>,
    capacity: u16,
    setup: ErrorView,
    answers: Seq<Answers>,
) -> MachineView
    decreases answers.len(),
{
    if answers.len() == 0 {
        started(p, init, capacity, setup)
    } else {
        step_spec(
            p,
            table,
            fallback,
            run_spec(p, table, fallback, init, capacity, setup, answers.drop_last()),
            answers.last(),
        )
    }
}

/// Whether the machine was still running before each of the steps that
/// `answers` holds the plugin's answers of: no step was taken after a halt.
pub open spec fn all_running(
    p: ProgramView,
    table: Seq<EntryView>,
    fallback: Option<PCallCommandStub>,
    init: Option<InitStub>,
    capacity: u16,
    setup: ErrorView,
    answers: Seq<Answers>,
) -> bool {
    forall|k: int|
        0 <= k < answers.len() ==> (#[trigger] run_spec(
            p,
            table,
            fallback,
            init,
            capacity,
            setup,
            answers.take(k),
        )).phase is Running
}

/// A machine that has halted stays as it is, whatever the plugin would
/// answer.
pub proof fn lemma_halted_stays(
    p: ProgramView,
    table: Seq<EntryView>,
    fallback: Option<PCallCommandStub>,
    m: MachineView,
    a: Answers,
)
    requires
        !(m.phase is Running),
    ensures
        step_spec(p, table, fallback, m, a) == m,
{
}

impl State {
    /// The kind of the state.
    pub open spec fn phase(&self) -> Phase {
        match self {
            State::Running { cursor } => Phase::Running(*cursor as int),
            State::Halted(Ok(_)) => Phase::Success,
            State::Halted(Err(_)) => Phase::Failed,
        }
    }
}

impl Run {
    /// Whether the run ended as the machine `m` stands.
    pub open spec fn agrees(&self, m: MachineView) -> bool {
        &&& self.state.phase() == m.phase
        &&& self.advisories@ == m.advisories
        &&& (self.state matches State::Halted(Err(e)) ==> e@ == m.buffer)
    }

    /// How the run ended, if it did: with success or with the error that
    /// halted it. `None` if the steps allowed were used up before.
    pub fn into_result(self) -> (r: Option<Result<(), Error>>)
        ensures
            r is None <==> self.state is Running,
            r matches Some(Ok(_)) <==> self.state matches State::Halted(Ok(_)),
            r matches Some(Err(e)) ==> (self.state matches State::Halted(Err(f)) && e == f),
    {
        match self.state {
            State::Running { .. } => None,
            State::Halted(result) => Some(result),
        }
    }
}

/// A command that resolves to a removed entry invokes no handler: the step
/// fails the run with the error of a removed command at the line of the
/// command, raises no advisory, and nothing that a handler could answer has
/// a part in it.
pub proof fn lemma_removed_never_invoked(
    p: ProgramView,
    table: Seq<EntryView>,
    fallback: Option<PCallCommandStub>,
    m: MachineView,
    a: Answers,
    b: Answers,
    cursor: int,
)
    requires
        m.phase == Phase::Running(cursor),
        resolution_of(p, table, fallback, m, cursor, a.verdicts) is Removed,
        b.verdicts == a.verdicts,
    ensures
        handler_of(resolution_of(p, table, fallback, m, cursor, a.verdicts)) is None,
        step_spec(p, table, fallback, m, a).phase is Failed,
        step_spec(p, table, fallback, m, a).buffer == engine_error(
            m.buffer,
            ERR_REMOVED_COMMAND,
            p.commands[cursor].line,
            "removed command {}"@,
            p.commands[cursor].tokens[0].text,
        ),
        step_spec(p, table, fallback, m, a).advisories == m.advisories,
        step_spec(p, table, fallback, m, a) == step_spec(p, table, fallback, m, b),
{
}

/// A command that resolves by a deprecated entry invokes the handler of
/// that entry, and the step adds one advisory, which names the command and
/// the entry. The run goes on as the handler asks: the advisory is no
/// failure.
pub proof fn lemma_deprecated_advises(
    p: ProgramView,
    table: Seq<EntryView>,
    fallback: Option<PCallCommandStub>,
    m: MachineView,
    a: Answers,
    cursor: int,
    index: usize,
    stub: PCallCommandStub,
)
    requires
        m.phase == Phase::Running(cursor),
        resolution_of(p, table, fallback, m, cursor, a.verdicts) == (Resolution::Entry {
            index,
            stub: Some(stub),
            deprecated: true,
        }),
    ensures
        handler_of(resolution_of(p, table, fallback, m, cursor, a.verdicts)) == Some(stub),
        step_spec(p, table, fallback, m, a).advisories == m.advisories.push(
            Advisory { command: cursor as usize, entry: index },
        ),
        step_spec(p, table, fallback, m, a).buffer.error_code == NO_ERROR ==> step_spec(
            p,
            table,
            fallback,
            m,
            a,
        ).buffer == a.buffer && !(step_spec(p, table, fallback, m, a).phase is Failed),
{
}

/// A command that was resolved before resolves the same way again,
/// whatever the routers would say now: the table is not scanned anew, and
/// the memo stays as it is.
pub proof fn lemma_cache_reused(
    p: ProgramView,
    table: Seq<EntryView>,
    fallback: Option<PCallCommandStub>,
    m: MachineView,
    a: Answers,
    verdicts: Seq<bool>,
)
    requires
        m.phase matches Phase::Running(cursor) && 0 <= cursor < m.cache.len()
            && m.cache[cursor] is Some,
    ensures
        m.phase matches Phase::Running(cursor) && resolution_of(
            p,
            table,
            fallback,
            m,
            cursor,
            verdicts,
        ) == m.cache[cursor]->0,
        step_spec(p, table, fallback, m, a) == step_spec(
            p,
            table,
            fallback,
            m,
            Answers { verdicts, ..a },
        ),
        step_spec(p, table, fallback, m, a).cache == m.cache,
{
    let cursor = m.phase->Running_0;
    assert(m.cache.update(cursor, m.cache[cursor]) =~= m.cache);
}

/// A handler that fails halts the run at once: the machine fails with the
/// error that the handler left, wherever the handler asked to continue.
pub proof fn lemma_failure_halts(
    p: ProgramView,
    table: Seq<EntryView>,
    fallback: Option<PCallCommandStub>,
    m: MachineView,
    a: Answers,
    cursor: int,
)
    requires
        m.phase == Phase::Running(cursor),
        handler_of(resolution_of(p, table, fallback, m, cursor, a.verdicts)) is Some,
        a.buffer.error_code != NO_ERROR,
    ensures
        step_spec(p, table, fallback, m, a).phase is Failed,
        step_spec(p, table, fallback, m, a).buffer == a.buffer,
{
}

/// The cursor goes where the handler asks: to the command that the handler
/// names, be it earlier or later in the program, and without a wish to the
/// next command, or to the end after the last.
pub proof fn lemma_cursor_follows(
    p: ProgramView,
    table: Seq<EntryView>,
    fallback: Option<PCallCommandStub>,
    m: MachineView,
    a: Answers,
    cursor: int,
)
    requires
        m.phase == Phase::Running(cursor),
        0 <= cursor < p.commands.len() <= usize::MAX,
        handler_of(resolution_of(p, table, fallback, m, cursor, a.verdicts)) is Some,
        a.buffer.error_code == NO_ERROR,
        a.next matches Some(to) ==> 0 <= to < p.commands.len(),
    ensures
        step_spec(p, table, fallback, m, a).phase == match a.next {
            Some(to) => Phase::Running(to),
            None => if cursor + 1 < p.commands.len() {
                Phase::Running(cursor + 1)
            } else {
                Phase::Success
            },
        },
{
}

/// A step remembers how it resolved its command: the next visit of the
/// command resolves it the same way.
pub proof fn lemma_resolution_remembered(
    p: ProgramView,
    table: Seq<EntryView>,
    fallback: Option<PCallCommandStub>,
    m: MachineView,
    a: Answers,
    cursor: int,
    verdicts: Seq<bool>,
)
    requires
        m.phase == Phase::Running(cursor),
        0 <= cursor < m.cache.len(),
    ensures
        resolution_of(p, table, fallback, step_spec(p, table, fallback, m, a), cursor, verdicts)
            == resolution_of(p, table, fallback, m, cursor, a.verdicts),
{
}

/// A memo that holds no resolution yet, for `count` commands.
fn empty_cache(count: usize) -> (cache: Vec<Option<Resolution>>)
    ensures
        cache@ == Seq::new(count as nat, |i: int| None::<Resolution>),
{
    let mut cache: Vec<Option<Resolution>> = Vec::new();
    while cache.len() < count
        invariant
            cache@.len() <= count,
            cache@ == Seq::new(cache@.len(), |i: int| None::<Resolution>),
        decreases count - cache@.len(),
    {
        cache.push(None);
        assert(cache@ =~= Seq::new(cache@.len(), |i: int| None::<Resolution>));
    }
    cache
}

/// A slot for each of `count` commands, with nothing in it.
fn empty_slots<X>(count: usize) -> (slots: Vec<Option<X>>)
    ensures
        slots@.len() == count,
{
    let mut slots: Vec<Option<X>> = Vec::new();
    while slots.len() < count
        invariant
            slots@.len() <= count,
        decreases count - slots@.len(),
    {
        slots.push(None);
    }
    slots
}

/// Writes into `error` that the command could not be dispatched.
fn report<'a>(error: &mut Error, code: u16, command: &Command<'a>, format: &str)
    ensures
        final(error)@ == engine_error(
            old(error)@,
            code,
            command@.line,
            format@,
            command@.tokens[0].text,
        ),
{
    let mut args: Vec<String> = Vec::new();
    args.push(command.first_word().clone());
    assert(texts(args@) =~= seq![command@.tokens[0].text]);
    format_error(error, code, command.source_info(), 0, format, &args);
}

/// A run in progress: the machine between two steps. It holds the context
/// of the run, the memo of resolutions, the slots of the commands, the
/// advisories raised so far and the shared error buffer.
pub struct Machine<'p, S: Stubs> {
    program: &'p Program,
    running: bool,
    cursor: usize,
    ready: bool,
    steps: u64,
    context: Option<S::Context>,
    cache: Vec<Option<Resolution>>,
    extras: Vec<Option<S::Extra>>,
    advisories: Vec<Advisory>,
    error: Error,
}

impl<'p, S: Stubs> View for Machine<'p, S> {
    type V = MachineView;

    closed spec fn view(&self) -> MachineView {
        MachineView {
            phase: if self.running {
                Phase::Running(self.cursor as int)
            } else if self.error@.error_code != NO_ERROR {
                Phase::Failed
            } else {
                Phase::Success
            },
            buffer: self.error@,
            cache: self.cache@,
            advisories: self.advisories@,
        }
    }
}

impl<'p, S: Stubs> Machine<'p, S> {
    #[verifier::type_invariant]
    spec fn inv(self) -> bool {
        &&& self.cache@.len() == self.program@.commands.len()
        &&& self.extras@.len() == self.program@.commands.len()
        &&& self.running ==> self.cursor < self.program@.commands.len() && self.error@.error_code
            == NO_ERROR
    }

    /// The program that the machine runs.
    pub closed spec fn program(&self) -> Program {
        *self.program
    }

    /// The number of steps taken, counted up to the largest number that the
    /// counter holds.
    pub closed spec fn steps_taken(&self) -> nat {
        self.steps as nat
    }

    /// Whether the next step would execute a command.
    pub fn is_running(&self) -> (b: bool)
        ensures
            b == (self@.phase is Running),
    {
        self.running
    }

    /// The place of the command that the next step executes, if the machine
    /// is running.
    pub fn cursor(&self) -> (r: Option<usize>)
        ensures
            match r {
                Some(cursor) => self@.phase == Phase::Running(cursor as int) && cursor
                    < self.program()@.commands.len(),
                None => !(self@.phase is Running),
            },
    {
        proof {
            use_type_invariant(self);
        }
        if self.running {
            Some(self.cursor)
        } else {
            None
        }
    }

    /// The advisories raised so far, in the order of the steps.
    pub fn advisories(&self) -> (r: &Vec<Advisory>)
        ensures
            r@ == self@.advisories,
    {
        &self.advisories
    }

    /// The number of steps taken.
    pub fn steps(&self) -> (n: u64)
        ensures
            n == self.steps_taken(),
    {
        self.steps
    }

    /// Takes one step: resolves the command under the cursor, by the memo
    /// if it was resolved before, and invokes the resolved handler. A
    /// machine that has halted stays as it is.
    ///
    /// Whatever the plugin answers, the machine goes on as [`step_spec`]
    /// defines for its answers.
    pub fn step(self, language: &Language, stubs: &mut S) -> (r: Self)
        ensures
            r.program() == self.program(),
            r.steps_taken() == if self@.phase is Running && self.steps_taken() < u64::MAX {
                self.steps_taken() + 1
            } else {
                self.steps_taken()
            },
            exists|a: Answers| #[trigger]
                step_spec(self.program()@, language.table(), language.fallback, self@, a) == r@,
    {
        proof {
            use_type_invariant(&self);
        }
        let ghost before = self@;
        let ghost p = self.program()@;
        let ghost table = language.table();
        let Machine {
            program,
            running,
            cursor,
            ready,
            steps,
            mut context,
            mut cache,
            mut extras,
            mut advisories,
            mut error,
        } = self;
        let ghost mut given = Answers { verdicts: Seq::empty(), next: None, buffer: error@ };
        if !running {
            let r = Machine {
                program,
                running,
                cursor,
                ready,
                steps,
                context,
                cache,
                extras,
                advisories,
                error,
            };
            assert(step_spec(p, table, language.fallback, before, given) == r@);
            return r;
        }
        let count = program.len();
        let command = program.command(cursor).unwrap();
        let resolution = match cache[cursor] {
            Some(r) => r,
            None => {
                let r = language.resolve(stubs, &command);
                proof {
                    let verdicts = choose|verdicts: Seq<bool>| #[trigger]
                        resolve_spec(table, language.fallback, command@.tokens[0].text, verdicts)
                            == r;
                    given = Answers { verdicts, ..given };
                }
                cache[cursor] = Some(r);
                r
            },
        };
        assert(cache@ =~= before.cache.update(cursor as int, Some(resolution)));
        let mut going = true;
        let handler = match resolution {
            Resolution::Entry { index, stub, deprecated } => {
                if deprecated {
                    advisories.push(Advisory { command: cursor, entry: index });
                }
                stub
            },
            Resolution::Fallback { fallback } => Some(fallback),
            Resolution::Removed { index } => {
                report(&mut error, ERR_REMOVED_COMMAND, &command, "removed command {}");
                going = false;
                None
            },
            Resolution::Unknown => {
                report(&mut error, ERR_UNKNOWN_COMMAND, &command, "unknown command {}");
                going = false;
                None
            },
        };
        let mut place = cursor;
        if going {
            let next = match handler {
                Some(stub) => {
                    let wish = stubs.call(
                        stub,
                        program,
                        &mut context,
                        &mut extras[cursor],
                        command,
                        &mut error,
                    );
                    match wish {
                        Some(target) => Some(target.index()),
                        None => None,
                    }
                },
                None => None,
            };
            proof {
                given = Answers {
                    next: match next {
                        Some(to) => Some(to as int),
                        None => None,
                    },
                    buffer: error@,
                    ..given
                };
            }
            if is_error(&error) {
                going = false;
            } else {
                match follow(count, cursor, next) {
                    Step::Continue(to) => {
                        place = to;
                    },
                    Step::Done => {
                        going = false;
                    },
                    Step::Lost => {
                        let here = program.command(cursor).unwrap();
                        report(
                            &mut error,
                            ERR_INVALID_JUMP,
                            &here,
                            "handler of {} continued at a command that the program does not hold",
                        );
                        going = false;
                    },
                }
            }
        }
        let steps = if steps < u64::MAX {
            steps + 1
        } else {
            steps
        };
        let r = Machine {
            program,
            running: going,
            cursor: place,
            ready,
            steps,
            context,
            cache,
            extras,
            advisories,
            error,
        };
        assert(step_spec(p, table, language.fallback, before, given) == r@);
        r
    }

    /// Ends the run: releases what the handlers left in the slots of the
    /// commands, by the cleanup hook of the language if it has one, runs the
    /// teardown hook unless the init hook failed, and tells where the
    /// machine stood.
    pub fn finish(self, language: &Language, stubs: &mut S) -> (run: Run)
        ensures
            run.agrees(self@),
            run.steps == self.steps_taken(),
    {
        proof {
            use_type_invariant(&self);
        }
        let Machine {
            program,
            running,
            cursor,
            ready,
            steps,
            context,
            cache,
            mut extras,
            advisories,
            error,
        } = self;
        while extras.len() > 0
            decreases extras@.len(),
        {
            if let Some(Some(extra)) = extras.pop() {
                if let Some(stub) = language.cmd_cleanup {
                    stubs.cmd_cleanup(stub, extra);
                }
            }
        }
        if ready {
            if let Some(stub) = language.atexit {
                stubs.atexit(stub, context);
            }
        }
        let state = if running {
            State::Running { cursor }
        } else if is_error(&error) {
            State::Halted(Err(error))
        } else {
            State::Halted(Ok(()))
        };
        Run { state, advisories, steps }
    }
}

impl Program {
    /// Sets a run up: runs the init hook of the language, if it has one, in
    /// a fresh error buffer of `error_capacity` bytes, and puts the cursor
    /// at the first command. The machine has failed already if the init
    /// hook left an error.
    pub fn start<'p, S: Stubs>(
        &'p self,
        language: &Language,
        stubs: &mut S,
        error_capacity: u16,
    ) -> (m: Machine<'p, S>)
        ensures
            m.program() == *self,
            m.steps_taken() == 0,
            exists|setup: ErrorView| #[trigger]
                started(self@, language.init, error_capacity, setup) == m@,
    {
        let mut error = error_buffer(error_capacity);
        let mut context: Option<S::Context> = None;
        if let Some(stub) = language.init {
            context = stubs.init(stub, &mut error);
        }
        let count = self.len();
        let ready = !is_error(&error);
        let m = Machine {
            program: self,
            running: ready && count > 0,
            cursor: 0,
            ready,
            steps: 0,
            context,
            cache: empty_cache(count),
            extras: empty_slots(count),
            advisories: Vec::new(),
            error,
        };
        assert(started(self@, language.init, error_capacity, m@.buffer) == m@);
        m
    }

    /// Runs the program with the language `language`, whose stubs `stubs`
    /// implements, for at most `max_steps` steps. Errors are reported in a
    /// buffer of `error_capacity` bytes, which the handlers share.
    ///
    /// The init hook of the language, if it has one, runs before the first
    /// step, and its teardown hook after the last, unless the init hook
    /// failed. Whatever the plugin answers, the run ends as the machine of
    /// [`run_spec`] stands after as many steps as were taken; it is still
    /// running only if the steps allowed were used up.
    pub fn run<S: Stubs>(
        &self,
        language: &Language,
        stubs: &mut S,
        error_capacity: u16,
        max_steps: u64,
    ) -> (run: Run)
        ensures
            run.steps <= max_steps,
            run.state is Running ==> run.steps == max_steps,
            exists|setup: ErrorView, answers: Seq<Answers>|
                answers.len() == run.steps && run.agrees(
                    #[trigger] run_spec(
                        self@,
                        language.table(),
                        language.fallback,
                        language.init,
                        error_capacity,
                        setup,
                        answers,
                    ),
                ) && all_running(
                    self@,
                    language.table(),
                    language.fallback,
                    language.init,
                    error_capacity,
                    setup,
                    answers,
                ),
    {
        let ghost p = self@;
        let ghost table = language.table();
        let ghost fallback = language.fallback;
        let ghost init = language.init;
        let mut machine = self.start(language, stubs, error_capacity);
        let ghost setup = choose|setup: ErrorView| #[trigger]
            started(p, init, error_capacity, setup) == machine@;
        let ghost mut answers = Seq::<Answers>::empty();
        let mut steps: u64 = 0;
        while machine.is_running() && steps < max_steps
            invariant
                p == self@,
                table == language.table(),
                fallback == language.fallback,
                machine.program() == *self,
                machine.steps_taken() == steps,
                steps <= max_steps,
                answers.len() == steps,
                machine@ == run_spec(p, table, fallback, init, error_capacity, setup, answers),
                all_running(p, table, fallback, init, error_capacity, setup, answers),
            decreases max_steps - steps,
        {
            let ghost before = machine@;
            machine = machine.step(language, stubs);
            steps += 1;
            proof {
                let given = choose|a: Answers| #[trigger]
                    step_spec(p, table, fallback, before, a) == machine@;
                let longer = answers.push(given);
                assert(longer.drop_last() =~= answers);
                assert forall|k: int| 0 <= k < longer.len() implies (#[trigger] run_spec(
                    p,
                    table,
                    fallback,
                    init,
                    error_capacity,
                    setup,
                    longer.take(k),
                )).phase is Running by {
                    if k < answers.len() {
                        assert(longer.take(k) =~= answers.take(k));
                    } else {
                        assert(longer.take(k) =~= answers);
                    }
                }
                answers = longer;
            }
        }
        let run = machine.finish(language, stubs);
        assert(run.agrees(run_spec(p, table, fallback, init, error_capacity, setup, answers)));
        run
    }
}

/// Where the cursor goes from `cursor` when the handler asked for `next`:
/// to the place asked for if the program holds it, and without a wish to
/// the next command, or past the end after the last.
pub fn follow(count: usize, cursor: usize, next: Option<usize>) -> (r: Step)
    ensures
        r == follow_spec(
            count as nat,
            cursor as int,
            match next {
                Some(to) => Some(to as int),
                None => None,
            },
        ),
{
    match next {
        Some(to) => if to < count {
            Step::Continue(to)
        } else {
            Step::Lost
        },
        None => if cursor < count && cursor + 1 < count {
            Step::Continue(cursor + 1)
        } else {
            Step::Done
        },
    }
}

} // verus!
