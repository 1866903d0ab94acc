use pl2b::diag::{ERR_MALFORMED_TEXT, ERR_UNTERMINATED_STRING};
use pl2b::encoding::{count_line_feeds, scalar_len, valid_up_to};
use pl2b::program::Program;

fn expected(bytes: &[u8]) -> usize {
    match std::str::from_utf8(bytes) {
        Ok(_) => bytes.len(),
        Err(e) => e.valid_up_to(),
    }
}

#[test]
fn valid_text_is_valid_to_its_end() {
    for text in ["", "a", "plain ascii\n", "gr\u{fc}\u{df}e", "\u{2713}\u{10348}\u{10ffff}\u{0}\u{7f}\u{80}\u{7ff}\u{800}\u{ffff}\u{10000}"] {
        assert_eq!(valid_up_to(text.as_bytes()), text.len());
    }
}

#[test]
fn every_sequence_of_two_bytes_is_judged_as_the_standard_says() {
    for a in 0..=255u8 {
        assert_eq!(valid_up_to(&[a]), expected(&[a]));
        for b in 0..=255u8 {
            assert_eq!(valid_up_to(&[a, b]), expected(&[a, b]), "{:02x} {:02x}", a, b);
        }
    }
}

#[test]
fn longer_sequences_are_judged_as_the_standard_says() {
    let leads = [0xdfu8, 0xe0, 0xe1, 0xec, 0xed, 0xee, 0xef, 0xf0, 0xf1, 0xf3, 0xf4, 0xf5, 0xf7, 0xf8, 0xff];
    let seconds = [0x00u8, 0x7f, 0x80, 0x8f, 0x90, 0x9f, 0xa0, 0xbf, 0xc0, 0xff];
    let thirds = [0x41u8, 0x7f, 0x80, 0xbf, 0xc0];
    for a in leads {
        for b in seconds {
            for c in thirds {
                assert_eq!(valid_up_to(&[a, b, c]), expected(&[a, b, c]), "{:02x} {:02x} {:02x}", a, b, c);
                for d in thirds {
                    let bytes = [a, b, c, d];
                    assert_eq!(valid_up_to(&bytes), expected(&bytes), "{:02x?}", bytes);
                    let framed = [0x61, a, b, c, d, 0x62];
                    assert_eq!(valid_up_to(&framed), expected(&framed), "{:02x?}", framed);
                }
            }
        }
    }
}

#[test]
fn scalar_value_has_the_length_of_its_encoding() {
    let text = "a\u{e9}\u{2713}\u{1F600}";
    let bytes = text.as_bytes();
    assert_eq!(scalar_len(bytes, 0), 1);
    assert_eq!(scalar_len(bytes, 1), 2);
    assert_eq!(scalar_len(bytes, 2), 0);
    assert_eq!(scalar_len(bytes, 3), 3);
    assert_eq!(scalar_len(bytes, 6), 4);
    assert_eq!(scalar_len(bytes, 9), 0);
    assert_eq!(scalar_len(&[0xed, 0xa0, 0x80], 0), 0);
    assert_eq!(scalar_len(&[0xc0, 0x80], 0), 0);
    assert_eq!(scalar_len(&[0xe0, 0x80, 0x80], 0), 0);
    assert_eq!(scalar_len(&[0xf0, 0x80, 0x80, 0x80], 0), 0);
    assert_eq!(scalar_len(&[0xf4, 0x90, 0x80, 0x80], 0), 0);
    assert_eq!(scalar_len(&[0xf4, 0x8f, 0xbf, 0xbf], 0), 4);
    assert_eq!(scalar_len(&[0xe2, 0x9c], 0), 0);
}

#[test]
fn line_feeds_are_counted_up_to_a_place() {
    let bytes = b"a\nb\n\nc\xff\n";
    assert_eq!(count_line_feeds(bytes, 0), 0);
    assert_eq!(count_line_feeds(bytes, 1), 0);
    assert_eq!(count_line_feeds(bytes, 2), 1);
    assert_eq!(count_line_feeds(bytes, 5), 3);
    assert_eq!(count_line_feeds(bytes, bytes.len()), 4);
    let many = vec![b'\n'; 70000];
    assert_eq!(count_line_feeds(&many, 65534), 65534);
    assert_eq!(count_line_feeds(&many, 65535), 65535);
    assert_eq!(count_line_feeds(&many, 70000), 65535);
}

#[test]
fn valid_bytes_parse_as_their_text() {
    let source = "greet \"w\u{f6}rld\"\n\u{2713} ok\n";
    let from_bytes = Program::parse_bytes(source.as_bytes(), 64, 512).unwrap();
    let from_text = Program::parse(source, 64, 512).unwrap();
    assert_eq!(from_bytes.to_text(), from_text.to_text());
    assert_eq!(from_bytes.source(), source);
    assert_eq!(from_bytes.len(), 2);
    assert_eq!(from_bytes.first_command().unwrap().part(1).text(), "w\u{f6}rld");
}

#[test]
fn malformed_text_is_a_parse_error_at_its_line() {
    let error = Program::parse_bytes(b"fine\nalso fine\nbad \xc3\x28 here\nmore\n", 64, 512).unwrap_err();
    assert_eq!(error.error_code(), ERR_MALFORMED_TEXT);
    assert_eq!(error.source_info().line(), 3);
    assert_eq!(error.source_info().file_name(), "<input>");
    assert_eq!(error.reason(), "text is not valid UTF-8");
    assert_eq!(error.to_text(), "in file <input>:3: error[1]: text is not valid UTF-8");
    let error = Program::parse_bytes(b"\xff", 64, 6).unwrap_err();
    assert_eq!(error.source_info().line(), 1);
    assert_eq!(error.reason(), "text ");
    assert_eq!(error.capacity(), 6);
}

#[test]
fn malformed_text_comes_before_any_other_fault() {
    let error = Program::parse_bytes(b"\"open\n\n\xe2\x9c", 64, 512).unwrap_err();
    assert_eq!(error.error_code(), ERR_MALFORMED_TEXT);
    assert_eq!(error.source_info().line(), 3);
    let error = Program::parse_bytes(b"\"open\n\n\xe2\x9c\x93", 64, 512).unwrap_err();
    assert_eq!(error.error_code(), ERR_UNTERMINATED_STRING);
    assert_eq!(error.source_info().line(), 1);
}

#[test]
fn line_of_malformed_text_stops_at_the_last_line_a_location_holds() {
    let mut bytes = vec![b'\n'; 70000];
    bytes.push(0x80);
    let error = Program::parse_bytes(&bytes, 64, 512).unwrap_err();
    assert_eq!(error.source_info().line(), 65535);
}
