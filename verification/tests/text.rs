use cpk_size_sync::text::{
    is_blank, parse_decimal_chars, parse_quoted_integer, read_string, string_chars,
    trim_quotes_range, StringEncoding,
};

#[test]
fn read_string_stops_at_nul() {
    let pool = b"CPK_ITEM\0data/a.bin\0";
    assert_eq!(read_string(pool, 0, StringEncoding::Utf8), Some("CPK_ITEM".to_string()));
    assert_eq!(read_string(pool, 9, StringEncoding::Utf8), Some("data/a.bin".to_string()));
    assert_eq!(read_string(pool, 4, StringEncoding::Sjis), Some("ITEM".to_string()));
}

#[test]
fn read_string_at_a_nul_is_empty() {
    let pool = b"ab\0\0cd";
    assert_eq!(read_string(pool, 2, StringEncoding::Utf8), Some(String::new()));
    assert_eq!(read_string(pool, 3, StringEncoding::Sjis), Some(String::new()));
}

#[test]
fn read_string_without_terminator_runs_to_the_end() {
    let pool = b"ab\0cd";
    assert_eq!(read_string(pool, 3, StringEncoding::Utf8), Some("cd".to_string()));
}

#[test]
fn read_string_outside_the_pool_is_none() {
    let pool = b"ab\0";
    assert_eq!(read_string(pool, 3, StringEncoding::Utf8), None);
    assert_eq!(read_string(pool, 100, StringEncoding::Sjis), None);
    assert_eq!(read_string(&[], 0, StringEncoding::Utf8), None);
}

#[test]
fn read_string_rejects_invalid_utf8() {
    let pool = [0x61u8, 0xff, 0x62, 0x00];
    assert_eq!(read_string(&pool, 0, StringEncoding::Utf8), None);
    let truncated = [0xe3u8, 0x81, 0x00];
    assert_eq!(read_string(&truncated, 0, StringEncoding::Utf8), None);
}

#[test]
fn read_string_decodes_utf8() {
    let pool = "名前\0".as_bytes();
    assert_eq!(read_string(pool, 0, StringEncoding::Utf8), Some("名前".to_string()));
}

#[test]
fn read_string_legacy_takes_each_byte_as_a_character() {
    let pool = [0x41u8, 0xe9, 0x82, 0x00];
    assert_eq!(
        read_string(&pool, 0, StringEncoding::Sjis),
        Some("A\u{e9}\u{82}".to_string())
    );
}

#[test]
fn string_chars_gives_every_character() {
    assert_eq!(string_chars("a\"é"), vec!['a', '"', 'é']);
    assert_eq!(string_chars(""), Vec::<char>::new());
}

#[test]
fn trim_quotes_range_strips_both_ends() {
    let chars: Vec<char> = "\"\"12\"3\"".chars().collect();
    assert_eq!(trim_quotes_range(&chars), (2, 6));
    let plain: Vec<char> = "abc".chars().collect();
    assert_eq!(trim_quotes_range(&plain), (0, 3));
    let quotes: Vec<char> = "\"\"\"".chars().collect();
    let (a, b) = trim_quotes_range(&quotes);
    assert_eq!(a, b);
    assert_eq!(trim_quotes_range(&[]), (0, 0));
}

#[test]
fn is_blank_knows_quotes_only() {
    assert!(is_blank(""));
    assert!(is_blank("\""));
    assert!(is_blank("\"\""));
    assert!(is_blank("\"\"\"\""));
    assert!(!is_blank("variant"));
    assert!(!is_blank("\"v\""));
    assert!(!is_blank(" "));
}

#[test]
fn parse_decimal_chars_reads_signed_numbers() {
    let parse = |s: &str| parse_decimal_chars(&s.chars().collect::<Vec<char>>());
    assert_eq!(parse("0"), Some(0));
    assert_eq!(parse("1024"), Some(1024));
    assert_eq!(parse("+17"), Some(17));
    assert_eq!(parse("-17"), Some(-17));
    assert_eq!(parse("-0"), Some(0));
    assert_eq!(parse("00012"), Some(12));
    assert_eq!(parse("9223372036854775807"), Some(i64::MAX));
    assert_eq!(parse("-9223372036854775808"), Some(i64::MIN));
}

#[test]
fn parse_decimal_chars_rejects_what_is_no_number() {
    let parse = |s: &str| parse_decimal_chars(&s.chars().collect::<Vec<char>>());
    assert_eq!(parse(""), None);
    assert_eq!(parse("+"), None);
    assert_eq!(parse("-"), None);
    assert_eq!(parse("12a"), None);
    assert_eq!(parse(" 12"), None);
    assert_eq!(parse("12 "), None);
    assert_eq!(parse("1_000"), None);
    assert_eq!(parse("--1"), None);
    assert_eq!(parse("1.5"), None);
    assert_eq!(parse("٣"), None);
    assert_eq!(parse("9223372036854775808"), None);
    assert_eq!(parse("-9223372036854775809"), None);
    assert_eq!(parse("99999999999999999999999999999999999999999999"), None);
}

#[test]
fn parse_decimal_chars_agrees_with_std() {
    for s in ["7", "+7", "-7", "", "x", "007", "-", "9223372036854775807", "9223372036854775808"] {
        let chars: Vec<char> = s.chars().collect();
        assert_eq!(parse_decimal_chars(&chars), s.parse::<i64>().ok());
    }
}

#[test]
fn parse_quoted_integer_strips_quotes() {
    assert_eq!(parse_quoted_integer("\"1024\""), Some(1024));
    assert_eq!(parse_quoted_integer("2048"), Some(2048));
    assert_eq!(parse_quoted_integer("\"\"-5\""), Some(-5));
    assert_eq!(parse_quoted_integer("\"\""), None);
    assert_eq!(parse_quoted_integer("\"1\"2\""), None);
    assert_eq!(parse_quoted_integer("size"), None);
}

#[test]
fn is_blank_agrees_with_trimming() {
    for s in ["", "\"", "\"\"\"", "a", "\"a", "a\"", "\"\"a\"\"", " ", "\" \""] {
        assert_eq!(is_blank(s), s.trim_matches('"').is_empty());
    }
}

#[test]
fn parse_quoted_integer_agrees_with_trimming_and_parsing() {
    for s in ["\"12\"", "12", "\"\"", "\"-3", "+4\"\"", "\"1\"2\"", "x", ""] {
        assert_eq!(parse_quoted_integer(s), s.trim_matches('"').parse::<i64>().ok());
    }
}
