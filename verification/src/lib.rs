//! An embeddable command-language engine: source text is parsed into a
//! program of sequential commands, and each command is dispatched to a
//! handler that a language plugin registers.
//!
//! The engine defines no commands of its own. It reads tokens into
//! commands ([`program`], by the grammar of [`syntax`]), resolves each
//! command against the dispatch table of a language ([`dispatch`]) and runs
//! the resolved handlers ([`engine`]), which the plugin supplies
//! ([`plugin`]). Failures travel in fixed-capacity error objects ([`diag`]),
//! and a plugin is admitted by its version ([`semver`]).

pub mod diag;
pub mod dispatch;
pub mod encoding;
pub mod engine;
pub mod laws;
pub mod plugin;
pub mod program;
pub mod render;
pub mod roundtrip;
pub mod semver;
pub mod syntax;
pub mod text;

pub use diag::{error_buffer, format_error, is_error, Error, SourceInfo};
pub use dispatch::{
    make_empty_pcall_cmd, make_language, make_pcall_cmd, make_pcall_cmd_custom_router, Language,
    PCallCommand, Resolution,
};
pub use engine::{Advisory, Machine, Run, State};
pub use plugin::{
    ensure_init_stub_interface, ensure_pcall_command_router_stub_interface,
    ensure_pcall_command_stub_interface, AtExitStub, CmdCleanupStub, CommandRouterStub, InitStub,
    PCallCommandStub, Stubs,
};
pub use program::{CmdPart, Command, Program};
pub use semver::{is_compatible, SemVer};
