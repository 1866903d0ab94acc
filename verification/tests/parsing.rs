use pl2b::diag::{DEFAULT_ERROR_CAPACITY, ERR_TOO_MANY_TOKENS, ERR_UNTERMINATED_STRING};
use pl2b::program::{Program, DEFAULT_MAX_TOKENS};

fn words(program: &Program) -> Vec<Vec<(String, bool)>> {
    let mut all = Vec::new();
    let mut cursor = program.first_command();
    while let Some(command) = cursor {
        let mut tokens = Vec::new();
        for i in 0..command.size() {
            let part = command.part(i);
            tokens.push((part.text().to_string(), part.is_string()));
        }
        all.push(tokens);
        cursor = command.next_command();
    }
    all
}

fn bare(text: &str) -> (String, bool) {
    (text.to_string(), false)
}

fn string(text: &str) -> (String, bool) {
    (text.to_string(), true)
}

#[test]
fn greet_world_parses_into_one_command() {
    let program = Program::parse("greet \"world\"\n", 64, 512).unwrap();
    assert_eq!(program.len(), 1);
    let command = program.first_command().unwrap();
    assert_eq!(command.size(), 2);
    assert_eq!(command.part(0).text(), "greet");
    assert!(!command.part(0).is_string());
    assert!(!command.part(0).is_empty());
    assert_eq!(command.part(1).text(), "world");
    assert!(command.part(1).is_string());
    assert_eq!(command.to_text(), "greet \"world\"");
    assert_eq!(command.name(), "greet");
    assert!(command.next_command().is_none());
    assert!(command.prev_command().is_none());
}

#[test]
fn empty_input_gives_an_empty_program() {
    let program = Program::parse("", 64, 512).unwrap();
    assert_eq!(program.len(), 0);
    assert!(program.first_command().is_none());
    assert!(program.command(0).is_none());
    assert_eq!(program.to_text(), "");
}

#[test]
fn empty_lines_make_no_command() {
    let program = Program::parse("\n\n  \t\r\nfirst\n\n\nsecond arg\n   \n", 64, 512).unwrap();
    assert_eq!(words(&program), vec![vec![bare("first")], vec![bare("second"), bare("arg")]]);
    let first = program.first_command().unwrap();
    assert_eq!(first.source_info().line(), 4);
    let second = first.next_command().unwrap();
    assert_eq!(second.source_info().line(), 7);
    assert_eq!(second.source_info().file_name(), "<input>");
}

#[test]
fn last_line_needs_no_line_end() {
    let program = Program::parse("a b\nc", 64, 512).unwrap();
    assert_eq!(words(&program), vec![vec![bare("a"), bare("b")], vec![bare("c")]]);
}

#[test]
fn commands_are_linked_in_source_order() {
    let program = Program::parse("one\ntwo\nthree\n", 64, 512).unwrap();
    let one = program.first_command().unwrap();
    let two = one.next_command().unwrap();
    let three = two.next_command().unwrap();
    assert!(three.next_command().is_none());
    assert_eq!(one.index(), 0);
    assert_eq!(two.index(), 1);
    assert_eq!(three.index(), 2);
    assert_eq!(three.prev_command().unwrap().name(), "two");
    assert_eq!(two.prev_command().unwrap().name(), "one");
    assert!(one.prev_command().is_none());
    assert_eq!(program.command(2).unwrap().name(), "three");
    assert!(program.command(3).is_none());
    assert_eq!(program.source(), "one\ntwo\nthree\n");
}

#[test]
fn escapes_are_resolved_inside_string_literals() {
    let program = Program::parse("say \"a\\nb\\t\\\"q\\\"\\\\ \\r\\0\\x\"", 64, 512).unwrap();
    let command = program.first_command().unwrap();
    assert_eq!(command.part(1).text(), "a\nb\t\"q\"\\ \r\0x");
    assert!(command.part(1).is_string());
}

#[test]
fn string_literal_may_be_empty_and_may_hold_blanks() {
    let program = Program::parse("x \"\" \"a  b\"", 64, 512).unwrap();
    assert_eq!(words(&program), vec![vec![bare("x"), string(""), string("a  b")]]);
}

#[test]
fn string_literal_may_span_lines() {
    let program = Program::parse("a \"one\ntwo\" b\nnext\n", 64, 512).unwrap();
    assert_eq!(
        words(&program),
        vec![vec![bare("a"), string("one\ntwo"), bare("b")], vec![bare("next")]]
    );
    let first = program.first_command().unwrap();
    assert_eq!(first.source_info().line(), 1);
    assert_eq!(first.next_command().unwrap().source_info().line(), 3);
}

#[test]
fn quote_inside_a_bare_word_is_part_of_the_word() {
    let program = Program::parse("ab\"cd e\"", 64, 512).unwrap();
    assert_eq!(words(&program), vec![vec![bare("ab\"cd"), bare("e\"")]]);
}

#[test]
fn tokens_may_follow_a_literal_without_blank() {
    let program = Program::parse("\"a\"b\"c\"", 64, 512).unwrap();
    assert_eq!(words(&program), vec![vec![string("a"), bare("b\"c\"")]]);
}

#[test]
fn text_beyond_ascii_is_kept() {
    let program = Program::parse("grüße \"wörld ✓\"\n", 64, 512).unwrap();
    assert_eq!(words(&program), vec![vec![bare("grüße"), string("wörld ✓")]]);
}

#[test]
fn too_many_tokens_fail_at_the_line_of_the_command() {
    let error = Program::parse("ok 1\n\na b c d\nlater", 3, 512).unwrap_err();
    assert_eq!(error.error_code(), ERR_TOO_MANY_TOKENS);
    assert_eq!(error.source_info().line(), 3);
    assert_eq!(error.source_info().file_name(), "<input>");
    assert_eq!(error.reason(), "a command may hold at most 3 tokens");
    assert_eq!(error.capacity(), 512);
    assert_eq!(
        error.to_text(),
        "in file <input>:3: error[3]: a command may hold at most 3 tokens"
    );
}

#[test]
fn as_many_tokens_as_allowed_pass() {
    let program = Program::parse("a b c\n", 3, 512).unwrap();
    assert_eq!(program.first_command().unwrap().size(), 3);
}

#[test]
fn too_many_tokens_are_attributed_to_the_line_where_the_command_began() {
    let error = Program::parse("a \"x\ny\" b c\n", 3, 512).unwrap_err();
    assert_eq!(error.error_code(), ERR_TOO_MANY_TOKENS);
    assert_eq!(error.source_info().line(), 1);
}

#[test]
fn no_command_passes_when_none_may_hold_a_token() {
    assert!(Program::parse("\n \n", 0, 512).is_ok());
    let error = Program::parse("\nx\n", 0, 512).unwrap_err();
    assert_eq!(error.error_code(), ERR_TOO_MANY_TOKENS);
    assert_eq!(error.source_info().line(), 2);
    assert_eq!(error.reason(), "a command may hold at most 0 tokens");
}

#[test]
fn unterminated_string_fails_at_the_line_of_its_opening_quote() {
    let error = Program::parse("fine\n\nsay \"never\nclosed\n\n", 64, 512).unwrap_err();
    assert_eq!(error.error_code(), ERR_UNTERMINATED_STRING);
    assert_eq!(error.source_info().line(), 3);
    assert_eq!(error.reason(), "string literal is not closed");
    assert_eq!(error.to_text(), "in file <input>:3: error[2]: string literal is not closed");
}

#[test]
fn backslash_at_the_end_leaves_the_string_unterminated() {
    let error = Program::parse("\"abc\\", 64, 512).unwrap_err();
    assert_eq!(error.error_code(), ERR_UNTERMINATED_STRING);
    assert_eq!(error.source_info().line(), 1);
    let error = Program::parse("\"abc\\\"", 64, 512).unwrap_err();
    assert_eq!(error.error_code(), ERR_UNTERMINATED_STRING);
}

#[test]
fn the_first_fault_is_reported() {
    let error = Program::parse("a b c\n\"open", 2, 512).unwrap_err();
    assert_eq!(error.error_code(), ERR_TOO_MANY_TOKENS);
    assert_eq!(error.source_info().line(), 1);
    let error = Program::parse("a \"open\nb c d e", 2, 512).unwrap_err();
    assert_eq!(error.error_code(), ERR_UNTERMINATED_STRING);
    assert_eq!(error.source_info().line(), 1);
}

#[test]
fn reason_is_cut_to_the_capacity_of_the_buffer() {
    let error = Program::parse("\"open", 64, 8).unwrap_err();
    assert_eq!(error.reason(), "string ");
    assert_eq!(error.capacity(), 8);
    let error = Program::parse("\"open", 64, 1).unwrap_err();
    assert_eq!(error.reason(), "");
    let error = Program::parse("\"open", 64, 0).unwrap_err();
    assert_eq!(error.reason(), "");
    assert_eq!(error.error_code(), ERR_UNTERMINATED_STRING);
}

#[test]
fn lines_past_the_last_that_a_location_can_hold_count_as_that_one() {
    let mut source = "\n".repeat(65533);
    source.push_str("a\nb\nc\nd\n");
    let program = Program::parse(&source, 64, 512).unwrap();
    let a = program.first_command().unwrap();
    let b = a.next_command().unwrap();
    let c = b.next_command().unwrap();
    let d = c.next_command().unwrap();
    assert_eq!(a.source_info().line(), 65534);
    assert_eq!(b.source_info().line(), 65535);
    assert_eq!(c.source_info().line(), 65535);
    assert_eq!(d.source_info().line(), 65535);
}

#[test]
fn carriage_return_and_tab_separate_tokens() {
    let program = Program::parse("a\tb\r\nc\r\n", 64, 512).unwrap();
    assert_eq!(words(&program), vec![vec![bare("a"), bare("b")], vec![bare("c")]]);
}

#[test]
fn default_limits_allow_sixty_four_tokens_and_a_buffer_of_512_bytes() {
    assert_eq!(DEFAULT_MAX_TOKENS, 64);
    assert_eq!(DEFAULT_ERROR_CAPACITY, 512);
    let fits = vec!["t"; 64].join(" ");
    let program = Program::parse(&fits, DEFAULT_MAX_TOKENS, DEFAULT_ERROR_CAPACITY).unwrap();
    assert_eq!(program.first_command().unwrap().size(), 64);
    let over = vec!["t"; 65].join(" ");
    let error = Program::parse(&over, DEFAULT_MAX_TOKENS, DEFAULT_ERROR_CAPACITY).unwrap_err();
    assert_eq!(error.error_code(), ERR_TOO_MANY_TOKENS);
    assert_eq!(error.reason(), "a command may hold at most 64 tokens");
    assert_eq!(error.capacity(), 512);
}
