//! What a language plugin supplies: the code behind the stubs that its
//! dispatch table and its lifecycle hooks name.
//!
//! A stub is a number that the plugin chooses for one of its functions. The
//! engine never interprets it: it hands the number back to the plugin when
//! the function is due.

use crate::diag::{Error, NO_ERROR};
use crate::program::{Command, Program};
use vstd::prelude::*;

verus! {

/// Names a handler: the function that executes one matched command.
pub type PCallCommandStub = u32;

/// Names a router: a predicate over commands that stands in place of an
/// exact command name.
pub type CommandRouterStub = u32;

/// Names the hook that sets a run up.
pub type InitStub = u32;

/// Names the hook that tears a run down.
pub type AtExitStub = u32;

/// Names the hook that releases what the plugin attached to a command.
pub type CmdCleanupStub = u32;

/// The functions of a plugin. The engine promises nothing about what they
/// do and relies on nothing: whatever they return, it goes on as its own
/// rules say.
pub trait Stubs {
    /// The state that the plugin keeps for the length of one run.
    type Context;

    /// What the plugin attaches to a single command in the course of a run.
    type Extra;

    /// Sets a run up and returns its state. A failure is reported by writing
    /// into `error`, which holds no error when the hook is called.
    fn init(&mut self, stub: InitStub, error: &mut Error) -> Option<Self::Context>
        requires
            old(error)@.error_code == NO_ERROR,
    ;

    /// Tears a run down; `context` is what `init` returned, if it ran.
    fn atexit(&mut self, stub: AtExitStub, context: Option<Self::Context>);

    /// Whether the router `stub` claims `command`.
    fn route<'a>(&mut self, stub: CommandRouterStub, command: &Command<'a>) -> bool;

    /// Executes `command`, a command of `program`. Returns the command to
    /// continue with, or `None` to go on with the one that follows
    /// `command`. A failure is reported by writing into `error`, which
    /// holds no error when the handler is called. `extra` is the slot of
    /// `command`: what an earlier visit left there is there again.
    fn call<'a>(
        &mut self,
        stub: PCallCommandStub,
        program: &'a Program,
        context: &mut Option<Self::Context>,
        extra: &mut Option<Self::Extra>,
        command: Command<'a>,
        error: &mut Error,
    ) -> Option<Command<'a>>
        requires
            command.program() == *program,
            old(error)@.error_code == NO_ERROR,
    ;

    /// Releases what a handler left in the slot of a command.
    fn cmd_cleanup(&mut self, stub: CmdCleanupStub, extra: Self::Extra);
}

/// Accepts the functions that have the shape of an init hook, and does
/// nothing with them: a plugin calls it to have the compiler check the shape
/// of a function that its `init` hands on to.
pub fn ensure_init_stub_interface<C, F: Fn(&mut Error) -> Option<C>>(_f: &F) {
}

/// Accepts the functions that have the shape of a handler, and does nothing
/// with them.
pub fn ensure_pcall_command_stub_interface<
    C,
    X,
    F: for <'a>Fn(
        &'a Program,
        &mut Option<C>,
        &mut Option<X>,
        Command<'a>,
        &mut Error,
    ) -> Option<Command<'a>>,
>(_f: &F) {
}

/// Accepts the functions that have the shape of a router, and does nothing
/// with them.
pub fn ensure_pcall_command_router_stub_interface<F: for <'a>Fn(&Command<'a>) -> bool>(_f: &F) {
}

} // verus!
