use pl2b::program::Program;

fn structure(program: &Program) -> Vec<Vec<(String, bool)>> {
    let mut all = Vec::new();
    for k in 0..program.len() {
        let command = program.command(k).unwrap();
        let mut tokens = Vec::new();
        for i in 0..command.size() {
            let part = command.part(i);
            tokens.push((part.text().to_string(), part.is_string()));
        }
        all.push(tokens);
    }
    all
}

fn reparsed(source: &str, cap: u16) -> (Program, Program) {
    let first = Program::parse(source, cap, 512).unwrap();
    let second = Program::parse(&first.to_text(), cap, 512).unwrap();
    (first, second)
}

#[test]
fn command_renders_with_single_spaces_and_quotes() {
    let program = Program::parse("  set   \"a b\"\t x  \n", 64, 512).unwrap();
    let command = program.first_command().unwrap();
    assert_eq!(command.to_text(), "set \"a b\" x");
    assert_eq!(command.part(0).to_text(), "set");
    assert_eq!(command.part(1).to_text(), "\"a b\"");
}

#[test]
fn special_characters_are_escaped_in_the_display_form() {
    let program = Program::parse("p \"q\\\"\\\\\\n\\t\\r\\0\nz\"", 64, 512).unwrap();
    let command = program.first_command().unwrap();
    assert_eq!(command.part(1).text(), "q\"\\\n\t\r\0\nz");
    assert_eq!(command.to_text(), "p \"q\\\"\\\\\\n\\t\\r\\0\\nz\"");
}

#[test]
fn program_renders_one_command_per_line() {
    let program = Program::parse("\n a  b\n\n\nc \"d\"", 64, 512).unwrap();
    assert_eq!(program.to_text(), "a b\nc \"d\"\n");
}

#[test]
fn display_form_parses_back_to_the_same_commands() {
    let sources = [
        "",
        "greet \"world\"\n",
        "\n\n a   b\t\"c d\" \r\n\n\"x\ny\" z\n last",
        "q \"\\\"\\\\\\n\\t\\r\\0\" \"\" ab\"cd\n",
        "\"a\"b \"c\"\"d\"\n",
        "ünï \"cødé ✓\" \\ \\n 'single'",
    ];
    for source in sources {
        let (first, second) = reparsed(source, 64);
        assert_eq!(structure(&first), structure(&second), "source {:?}", source);
        assert_eq!(first.to_text(), second.to_text());
        for k in 0..second.len() {
            assert_eq!(second.command(k).unwrap().source_info().line() as usize, k + 1);
        }
    }
}

#[test]
fn display_form_parses_back_under_the_same_token_limit() {
    let (first, second) = reparsed("a b c\nd e \"f\"\n", 3);
    assert_eq!(structure(&first), structure(&second));
}
