use pl2b::diag::Error;
use pl2b::plugin::{
    ensure_init_stub_interface, ensure_pcall_command_router_stub_interface,
    ensure_pcall_command_stub_interface,
};
use pl2b::program::{Command, Program};

fn set_up(_error: &mut Error) -> Option<u32> {
    Some(1)
}

fn handle<'a>(
    program: &'a Program,
    _context: &mut Option<u32>,
    _extra: &mut Option<String>,
    _command: Command<'a>,
    _error: &mut Error,
) -> Option<Command<'a>> {
    program.first_command()
}

fn claims<'a>(command: &Command<'a>) -> bool {
    command.size() > 1
}

#[test]
fn functions_of_the_right_shape_are_accepted() {
    ensure_init_stub_interface(&set_up);
    ensure_pcall_command_stub_interface(&handle);
    ensure_pcall_command_router_stub_interface(&claims);
    let program = Program::parse("a b\nc\n", 64, 512).unwrap();
    let first = program.first_command().unwrap();
    assert!(claims(&first));
    assert!(!claims(&first.next_command().unwrap()));
}
