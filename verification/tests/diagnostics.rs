use pl2b::diag::{
    error_buffer, expand_format, format_error, is_error, report_plugin_failure, SourceInfo,
    ERR_INCOMPATIBLE_VERSION,
    ERR_INVALID_JUMP, ERR_MALFORMED_TEXT, ERR_PLUGIN, ERR_REMOVED_COMMAND, ERR_TOO_MANY_TOKENS,
    ERR_UNKNOWN_COMMAND, ERR_UNTERMINATED_STRING, NO_ERROR,
};

fn message(format: &str, args: &[&str]) -> String {
    let args: Vec<String> = args.iter().map(|a| a.to_string()).collect();
    expand_format(format, &args).into_iter().collect()
}

#[test]
fn fresh_buffer_holds_no_error() {
    let error = error_buffer(512);
    assert!(!is_error(&error));
    assert_eq!(error.error_code(), 0);
    assert_eq!(error.capacity(), 512);
    assert_eq!(error.reason(), "");
    assert_eq!(error.extra_data(), 0);
    assert_eq!(error.source_info().line(), 0);
    assert_eq!(error.source_info().file_name(), "");
}

#[test]
fn formatting_sets_code_location_and_reason() {
    let mut error = error_buffer(64);
    format_error(
        &mut error,
        17,
        SourceInfo::new("main.pl", 12),
        99,
        "{} expects {} arguments",
        &vec!["move".to_string(), "2".to_string()],
    );
    assert!(is_error(&error));
    assert_eq!(error.error_code(), 17);
    assert_eq!(error.extra_data(), 99);
    assert_eq!(error.capacity(), 64);
    assert_eq!(error.source_info().file_name(), "main.pl");
    assert_eq!(error.source_info().line(), 12);
    assert_eq!(error.reason(), "move expects 2 arguments");
    assert_eq!(error.to_text(), "in file main.pl:12: error[17]: move expects 2 arguments");
}

#[test]
fn error_with_code_zero_is_no_error() {
    let mut error = error_buffer(64);
    format_error(&mut error, 0, SourceInfo::unknown(), 0, "all fine", &Vec::new());
    assert!(!is_error(&error));
    assert_eq!(error.reason(), "all fine");
    assert_eq!(error.to_text(), "in file :0: error[0]: all fine");
}

#[test]
fn reason_leaves_room_for_its_terminator() {
    let mut error = error_buffer(6);
    format_error(&mut error, 1, SourceInfo::unknown(), 0, "abcdefgh", &Vec::new());
    assert_eq!(error.reason(), "abcde");
    format_error(&mut error, 1, SourceInfo::unknown(), 0, "abcde", &Vec::new());
    assert_eq!(error.reason(), "abcde");
    format_error(&mut error, 1, SourceInfo::unknown(), 0, "abcd", &Vec::new());
    assert_eq!(error.reason(), "abcd");
    assert_eq!(error.capacity(), 6);
}

#[test]
fn reason_is_cut_between_characters() {
    let mut error = error_buffer(4);
    format_error(&mut error, 1, SourceInfo::unknown(), 0, "a\u{e9}\u{2713}", &Vec::new());
    assert_eq!(error.reason(), "a\u{e9}");
    let mut error = error_buffer(3);
    format_error(&mut error, 1, SourceInfo::unknown(), 0, "a\u{e9}\u{2713}", &Vec::new());
    assert_eq!(error.reason(), "a");
    let mut error = error_buffer(7);
    format_error(&mut error, 1, SourceInfo::unknown(), 0, "a\u{e9}\u{2713}\u{1F600}", &Vec::new());
    assert_eq!(error.reason(), "a\u{e9}\u{2713}");
    assert!(error.reason().len() < 7);
    let mut error = error_buffer(11);
    format_error(&mut error, 1, SourceInfo::unknown(), 0, "a\u{e9}\u{2713}\u{1F600}", &Vec::new());
    assert_eq!(error.reason(), "a\u{e9}\u{2713}\u{1F600}");
}

#[test]
fn buffer_without_room_keeps_the_code() {
    let mut error = error_buffer(0);
    format_error(&mut error, 3, SourceInfo::new("f", 1), 0, "lost", &Vec::new());
    assert!(is_error(&error));
    assert_eq!(error.reason(), "");
    let mut error = error_buffer(1);
    format_error(&mut error, 3, SourceInfo::new("f", 1), 0, "lost", &Vec::new());
    assert_eq!(error.reason(), "");
    assert_eq!(error.to_text(), "in file f:1: error[3]: ");
}

#[test]
fn placeholders_take_the_arguments_in_order() {
    assert_eq!(message("", &[]), "");
    assert_eq!(message("plain", &[]), "plain");
    assert_eq!(message("{}", &["x"]), "x");
    assert_eq!(message("{}{}", &["x", "y"]), "xy");
    assert_eq!(message("a {} b {} c", &["1", "2"]), "a 1 b 2 c");
    assert_eq!(message("{} and {}", &["only"]), "only and ");
    assert_eq!(message("no place", &["unused"]), "no place");
    assert_eq!(message("{ } {x} }{ {", &["a"]), "{ } {x} }{ {");
    assert_eq!(message("{{}}", &["in"]), "{in}");
    assert_eq!(message("{}", &["{}"]), "{}");
    assert_eq!(message("trailing {", &["a"]), "trailing {");
}

#[test]
fn location_unknown_has_no_file_and_line_zero() {
    let unknown = SourceInfo::unknown();
    assert_eq!(unknown.file_name(), "");
    assert_eq!(unknown.line(), 0);
    let copy = SourceInfo::new("a.pl", 65535).clone();
    assert_eq!(copy.file_name(), "a.pl");
    assert_eq!(copy.line(), 65535);
}

#[test]
fn error_shows_largest_numbers_in_full() {
    let mut error = error_buffer(64);
    format_error(&mut error, 65535, SourceInfo::new("x", 65535), 0, "r", &Vec::new());
    assert_eq!(error.to_text(), "in file x:65535: error[65535]: r");
    format_error(&mut error, 10, SourceInfo::new("x", 100), 0, "r", &Vec::new());
    assert_eq!(error.to_text(), "in file x:100: error[10]: r");
}

#[test]
fn codes_of_the_engine_are_distinct() {
    let codes = [
        NO_ERROR,
        ERR_MALFORMED_TEXT,
        ERR_UNTERMINATED_STRING,
        ERR_TOO_MANY_TOKENS,
        ERR_UNKNOWN_COMMAND,
        ERR_REMOVED_COMMAND,
        ERR_INCOMPATIBLE_VERSION,
        ERR_INVALID_JUMP,
        ERR_PLUGIN,
    ];
    for (i, a) in codes.iter().enumerate() {
        for b in codes.iter().skip(i + 1) {
            assert_ne!(a, b);
        }
    }
    assert_eq!(NO_ERROR, 0);
}

#[test]
fn failure_of_a_plugin_keeps_its_message_as_it_stands() {
    let mut error = error_buffer(64);
    report_plugin_failure(&mut error, SourceInfo::new("p.pl", 4), "100% {} done");
    assert!(is_error(&error));
    assert_eq!(error.error_code(), ERR_PLUGIN);
    assert_eq!(error.error_code(), 0xFFFF);
    assert_eq!(error.extra_data(), 0);
    assert_eq!(error.reason(), "100% {} done");
    assert_eq!(error.to_text(), "in file p.pl:4: error[65535]: 100% {} done");
    let mut small = error_buffer(5);
    report_plugin_failure(&mut small, SourceInfo::unknown(), "too long");
    assert_eq!(small.reason(), "too ");
    assert_eq!(small.capacity(), 5);
}
