use pl2b::render::{push_escaped_char, push_token};
use pl2b::syntax::{blank, scan_quoted, scan_word, unescaped};
use pl2b::text::{
    char_width, chars_of, decimal_string, digit_char, push_decimal, push_truncated,
};

#[test]
fn numerals_have_no_leading_zeros() {
    assert_eq!(decimal_string(0), "0");
    assert_eq!(decimal_string(7), "7");
    assert_eq!(decimal_string(10), "10");
    assert_eq!(decimal_string(909), "909");
    assert_eq!(decimal_string(65535), "65535");
    let mut out = String::from("n=");
    push_decimal(&mut out, 1203);
    assert_eq!(out, "n=1203");
    assert_eq!(digit_char(0), '0');
    assert_eq!(digit_char(9), '9');
}

#[test]
fn string_gives_its_characters_in_order() {
    let chars = chars_of("a\u{e9}\u{2713}");
    assert_eq!(chars, vec!['a', '\u{e9}', '\u{2713}']);
    assert_eq!(chars_of(""), Vec::<char>::new());
}

#[test]
fn width_is_the_length_of_the_encoding() {
    for c in ['\0', 'a', '\u{7f}', '\u{80}', '\u{7ff}', '\u{800}', '\u{ffff}', '\u{10000}', '\u{10ffff}'] {
        assert_eq!(char_width(c), c.len_utf8());
    }
}

#[test]
fn truncation_takes_the_longest_prefix_that_fits() {
    let chars = chars_of("a\u{e9}\u{2713}z");
    for (budget, expected) in
        [(0, ""), (1, "a"), (2, "a"), (3, "a\u{e9}"), (5, "a\u{e9}"), (6, "a\u{e9}\u{2713}"), (7, "a\u{e9}\u{2713}z"), (99, "a\u{e9}\u{2713}z")]
    {
        let mut out = String::from(">");
        push_truncated(&mut out, &chars, budget);
        assert_eq!(out, format!(">{}", expected));
    }
}

#[test]
fn words_end_at_blanks_and_line_ends() {
    let chars = chars_of("ab\"c d\ne");
    assert_eq!(scan_word(&chars, 0), ("ab\"c".to_string(), 4));
    assert_eq!(scan_word(&chars, 4), ("".to_string(), 4));
    assert_eq!(scan_word(&chars, 5), ("d".to_string(), 6));
    assert_eq!(scan_word(&chars, 7), ("e".to_string(), 8));
    assert_eq!(scan_word(&chars, 8), ("".to_string(), 8));
    assert!(blank(' ') && blank('\t') && blank('\r'));
    assert!(!blank('\n') && !blank('a') && !blank('"'));
}

#[test]
fn literals_end_at_the_first_quote_that_is_not_escaped() {
    let chars = chars_of("a\\\"b\\\\\" rest");
    assert_eq!(scan_quoted(&chars, 0), Some(("a\"b\\".to_string(), 7, 0)));
    let lines = chars_of("x\ny\\\nz\"");
    assert_eq!(scan_quoted(&lines, 0), Some(("x\ny\nz".to_string(), 7, 2)));
    assert_eq!(scan_quoted(&lines, 7), None);
    assert_eq!(scan_quoted(&chars_of("open \\\""), 0), None);
    assert_eq!(scan_quoted(&chars_of("\"\""), 0), Some(("".to_string(), 1, 0)));
}

#[test]
fn escapes_stand_for_controls_or_for_themselves() {
    assert_eq!(unescaped('n'), '\n');
    assert_eq!(unescaped('t'), '\t');
    assert_eq!(unescaped('r'), '\r');
    assert_eq!(unescaped('0'), '\0');
    assert_eq!(unescaped('"'), '"');
    assert_eq!(unescaped('\\'), '\\');
    assert_eq!(unescaped('x'), 'x');
    for c in ['"', '\\', '\n', '\t', '\r', '\0', 'a', ' ', '\u{e9}'] {
        let mut out = String::new();
        push_escaped_char(&mut out, c);
        let written: Vec<char> = out.chars().collect();
        if written.len() == 1 {
            assert_eq!(written[0], c);
        } else {
            assert_eq!(written.len(), 2);
            assert_eq!(written[0], '\\');
            assert_eq!(unescaped(written[1]), c);
        }
    }
}

#[test]
fn tokens_are_written_as_they_are_read() {
    let mut out = String::new();
    push_token(&mut out, &chars_of("plain"), false);
    out.push(' ');
    push_token(&mut out, &chars_of("two words"), true);
    out.push(' ');
    push_token(&mut out, &chars_of(""), true);
    assert_eq!(out, "plain \"two words\" \"\"");
}
