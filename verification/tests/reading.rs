use intlines::decimal::parse_span;
use intlines::reader::{parse_line, parse_numbers, read_numbers, ReadError};
use intlines::text::{chars_of, is_whitespace, line_end, trim_bounds};

#[test]
fn reads_integers_and_skips_other_lines() {
    assert_eq!(parse_numbers("1\n2\nfoo\n-5\n  7  \n"), vec![1, 2, -5, 7]);
    assert_eq!(read_numbers(b"1\n2\nfoo\n-5\n  7  \n"), Ok(vec![1, 2, -5, 7]));
}

#[test]
fn reads_a_text_of_integers_in_order() {
    assert_eq!(parse_numbers("10\n-20\n30\n"), vec![10, -20, 30]);
    assert_eq!(parse_numbers(" 10\n\t-20 \n30  \n"), vec![10, -20, 30]);
    assert_eq!(parse_numbers("3\n3\n1\n2\n"), vec![3, 3, 1, 2]);
}

#[test]
fn blank_and_other_lines_leave_no_trace() {
    assert_eq!(parse_numbers("\n\n4\n\n# note\n5\n   \n"), vec![4, 5]);
    assert_eq!(parse_numbers("x\ny\n\n"), Vec::<i32>::new());
    assert_eq!(parse_numbers("\n\n\n"), Vec::<i32>::new());
}

#[test]
fn empty_text_holds_no_integers() {
    assert_eq!(parse_numbers(""), Vec::<i32>::new());
    assert_eq!(read_numbers(b""), Ok(Vec::new()));
}

#[test]
fn last_line_needs_no_line_feed() {
    assert_eq!(parse_numbers("1\n2"), vec![1, 2]);
    assert_eq!(parse_numbers("7"), vec![7]);
    assert_eq!(parse_numbers("7\nx"), vec![7]);
}

#[test]
fn carriage_returns_are_white_space() {
    assert_eq!(parse_numbers("1\r\n2\r\n"), vec![1, 2]);
    assert_eq!(parse_numbers("1\r\n2\r"), vec![1, 2]);
    assert_eq!(parse_numbers("1\r2\n3\n"), vec![3]);
}

#[test]
fn line_with_sign() {
    assert_eq!(parse_line("+5"), Some(5));
    assert_eq!(parse_line("-5"), Some(-5));
    assert_eq!(parse_line("-0"), Some(0));
    assert_eq!(parse_line("+0"), Some(0));
    assert_eq!(parse_line("-"), None);
    assert_eq!(parse_line("+"), None);
    assert_eq!(parse_line("--1"), None);
    assert_eq!(parse_line("+-1"), None);
    assert_eq!(parse_line("1-"), None);
    assert_eq!(parse_line("- 1"), None);
}

#[test]
fn line_with_leading_zeros() {
    assert_eq!(parse_line("007"), Some(7));
    assert_eq!(parse_line("-000000000000000000000000000012"), Some(-12));
    assert_eq!(parse_line("00000000000000000000002147483647"), Some(2147483647));
    assert_eq!(parse_line("00000000000000000000002147483648"), None);
}

#[test]
fn line_at_the_limits() {
    assert_eq!(parse_line("2147483647"), Some(i32::MAX));
    assert_eq!(parse_line("+2147483647"), Some(i32::MAX));
    assert_eq!(parse_line("2147483648"), None);
    assert_eq!(parse_line("-2147483648"), Some(i32::MIN));
    assert_eq!(parse_line("-2147483649"), None);
    assert_eq!(parse_line("99999999999999999999999999999999999999"), None);
    assert_eq!(parse_line("-99999999999999999999999999999999999999"), None);
    assert_eq!(parse_line("4294967297"), None);
    assert_eq!(parse_line("18446744073709551617"), None);
}

#[test]
fn line_that_is_no_integer() {
    assert_eq!(parse_line(""), None);
    assert_eq!(parse_line("   "), None);
    assert_eq!(parse_line("foo"), None);
    assert_eq!(parse_line("1 2"), None);
    assert_eq!(parse_line("12a"), None);
    assert_eq!(parse_line("a12"), None);
    assert_eq!(parse_line("1.5"), None);
    assert_eq!(parse_line("1_000"), None);
    assert_eq!(parse_line("0x10"), None);
    assert_eq!(parse_line("\u{0663}"), None);
}

#[test]
fn line_with_white_space_around() {
    assert_eq!(parse_line("  7  "), Some(7));
    assert_eq!(parse_line("\t-7"), Some(-7));
    assert_eq!(parse_line("\u{a0}7\u{3000}"), Some(7));
    assert_eq!(parse_line("\u{2003}\u{2028}12\u{85}\u{1680}"), Some(12));
    assert_eq!(parse_line("\u{200b}12"), None);
}

#[test]
fn line_agrees_with_trim_and_parse() {
    let lines = [
        "", " ", "0", "-0", "+0", "12", " 12", "12 ", "\t12\r", "+12", "-12", "1 2", "--1", "+",
        "-", "2147483647", "2147483648", "-2147483648", "-2147483649", "000", "0001", "1e3",
        "\u{a0}5\u{a0}", "\u{feff}5", "5\u{b}", "\u{c}5", "\u{1c}5", "5\u{1f}", "١٢",
    ];
    for line in lines {
        assert_eq!(parse_line(line), line.trim().parse::<i32>().ok(), "{:?}", line);
    }
}

#[test]
fn white_space_is_what_char_says() {
    for code in 0u32..=0x10FFFF {
        if let Some(c) = char::from_u32(code) {
            assert_eq!(is_whitespace(c), c.is_whitespace(), "{:?}", c);
        }
    }
}

#[test]
fn white_space_samples() {
    assert!(is_whitespace(' '));
    assert!(is_whitespace('\n'));
    assert!(is_whitespace('\r'));
    assert!(is_whitespace('\t'));
    assert!(is_whitespace('\u{2009}'));
    assert!(!is_whitespace('0'));
    assert!(!is_whitespace('-'));
    assert!(!is_whitespace('\u{200b}'));
    assert!(!is_whitespace('\u{8}'));
    assert!(!is_whitespace('\u{e}'));
}

#[test]
fn contents_in_utf8_are_read() {
    assert_eq!(read_numbers("\u{2003}12\u{2003}\nné\n-4\n".as_bytes()), Ok(vec![12, -4]));
    assert_eq!(read_numbers(b"42"), Ok(vec![42]));
}

#[test]
fn contents_not_in_utf8_are_refused() {
    assert_eq!(read_numbers(&[0xff]), Err(ReadError::InvalidEncoding));
    assert_eq!(read_numbers(b"1\n2\n\xc3\n3\n"), Err(ReadError::InvalidEncoding));
    assert_eq!(read_numbers(b"1\n\xed\xa0\x80\n"), Err(ReadError::InvalidEncoding));
    assert_eq!(read_numbers(b"1\n\xc0\x80\n"), Err(ReadError::InvalidEncoding));
}

#[test]
fn characters_of_a_text() {
    assert_eq!(chars_of(""), Vec::<char>::new());
    assert_eq!(chars_of("aé\n"), vec!['a', 'é', '\n']);
}

#[test]
fn end_of_a_line() {
    let chars = chars_of("ab\ncd");
    assert_eq!(line_end(&chars, 0), 2);
    assert_eq!(line_end(&chars, 1), 2);
    assert_eq!(line_end(&chars, 2), 2);
    assert_eq!(line_end(&chars, 3), 5);
    assert_eq!(line_end(&chars, 5), 5);
}

#[test]
fn bounds_after_trimming() {
    let chars = chars_of("  ab c \n");
    assert_eq!(trim_bounds(&chars, 0, 7), (2, 6));
    assert_eq!(trim_bounds(&chars, 0, 8), (2, 6));
    assert_eq!(trim_bounds(&chars, 2, 6), (2, 6));
    assert_eq!(trim_bounds(&chars, 0, 2), (2, 2));
    assert_eq!(trim_bounds(&chars, 3, 3), (3, 3));
}

#[test]
fn integer_in_a_span() {
    let chars = chars_of("x-12y+3");
    assert_eq!(parse_span(&chars, 1, 4), Some(-12));
    assert_eq!(parse_span(&chars, 2, 4), Some(12));
    assert_eq!(parse_span(&chars, 5, 7), Some(3));
    assert_eq!(parse_span(&chars, 0, 4), None);
    assert_eq!(parse_span(&chars, 1, 5), None);
    assert_eq!(parse_span(&chars, 1, 2), None);
    assert_eq!(parse_span(&chars, 3, 3), None);
}
