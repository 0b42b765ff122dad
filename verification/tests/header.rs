use git_odb::header::{
    is_hex_digit_lc, parse_decimal_u32, parse_header_field, parse_header_field_multiline,
    parse_hex_sha1, parse_signature, ParseError, Sign,
};

#[test]
fn signature_with_positive_offset() {
    let input = b"Jane Doe <jane@example.com> 1234567890 +0230\nnext";
    let (rest, sig) = parse_signature(input).expect("well-formed signature");
    assert_eq!(sig.name, &b"Jane Doe"[..]);
    assert_eq!(sig.email, &b"jane@example.com"[..]);
    assert_eq!(sig.time.time, 1234567890);
    assert_eq!(sig.time.offset, 2 * 3600 + 30 * 60);
    assert_eq!(sig.time.sign, Sign::Plus);
    assert_eq!(rest, &b"\nnext"[..]);
}

#[test]
fn signature_with_negative_offset() {
    let input = b"A B <a@b> 7 -0100rest";
    let (rest, sig) = parse_signature(input).expect("well-formed signature");
    assert_eq!(sig.name, &b"A B"[..]);
    assert_eq!(sig.email, &b"a@b"[..]);
    assert_eq!(sig.time.time, 7);
    assert_eq!(sig.time.offset, -3600);
    assert_eq!(sig.time.sign, Sign::Minus);
    assert_eq!(rest, &b"rest"[..]);
}

#[test]
fn signature_missing_delimiters_is_malformed() {
    assert!(matches!(
        parse_signature(b"no delimiters here"),
        Err(ParseError::Malformed)
    ));
    assert!(matches!(
        parse_signature(b"name <email but no close"),
        Err(ParseError::Malformed)
    ));
    assert!(matches!(
        parse_signature(b"n <e> 123 *0100"),
        Err(ParseError::Malformed)
    ));
    assert!(matches!(
        parse_signature(b"n <e> 123 +01"),
        Err(ParseError::Malformed)
    ));
    assert!(matches!(
        parse_signature(b"n <e> 123 +01x0"),
        Err(ParseError::Malformed)
    ));
}

#[test]
fn signature_bad_seconds_is_integer_error() {
    assert!(matches!(
        parse_signature(b"n <e> 12a4 +0100"),
        Err(ParseError::InvalidInteger)
    ));
    assert!(matches!(
        parse_signature(b"n <e>  +0100"),
        Err(ParseError::InvalidInteger)
    ));
    assert!(matches!(
        parse_signature(b"n <e> 99999999999 +0100"),
        Err(ParseError::InvalidInteger)
    ));
}

#[test]
fn hex_digit_classification() {
    assert!(is_hex_digit_lc(b'0'));
    assert!(is_hex_digit_lc(b'9'));
    assert!(is_hex_digit_lc(b'a'));
    assert!(is_hex_digit_lc(b'f'));
    assert!(!is_hex_digit_lc(b'g'));
    assert!(!is_hex_digit_lc(b'A'));
    assert!(!is_hex_digit_lc(b'F'));
    assert!(!is_hex_digit_lc(b'/'));
    assert!(!is_hex_digit_lc(b':'));
}

#[test]
fn hex_sha1_parses_exactly_forty_digits() {
    let mut input = b"e69de29bb2d1d6434b8b29ae775ad8c2e48c5391".to_vec();
    input.extend_from_slice(b"\ntail");
    let (rest, hex) = parse_hex_sha1(&input).expect("forty hex digits");
    assert_eq!(hex, &b"e69de29bb2d1d6434b8b29ae775ad8c2e48c5391"[..]);
    assert_eq!(rest, &b"\ntail"[..]);

    assert!(matches!(parse_hex_sha1(b"abc"), Err(ParseError::Malformed)));
    let upper = b"E69DE29BB2D1D6434B8B29AE775AD8C2E48C5391";
    assert!(matches!(parse_hex_sha1(upper), Err(ParseError::Malformed)));
}

#[test]
fn decimal_parsing_bounds() {
    assert_eq!(parse_decimal_u32(b"0"), Some(0));
    assert_eq!(parse_decimal_u32(b"007"), Some(7));
    assert_eq!(parse_decimal_u32(b"4294967295"), Some(u32::MAX));
    assert_eq!(parse_decimal_u32(b"4294967296"), None);
    assert_eq!(parse_decimal_u32(b""), None);
    assert_eq!(parse_decimal_u32(b"12x"), None);
}

#[test]
fn multiline_field_collects_continuation_lines() {
    let input = b"gpgsig first line\n second\n third\nnext header";
    let (rest, value) = parse_header_field_multiline(input, b"gpgsig").expect("multiline field");
    assert_eq!(value, &b"first line\n second\n third\n"[..]);
    assert_eq!(rest, &b"next header"[..]);
}

#[test]
fn multiline_field_requires_continuation() {
    // A first line with no space-led continuation line is not multiline.
    assert!(matches!(
        parse_header_field_multiline(b"gpgsig only one line\nnext", b"gpgsig"),
        Err(ParseError::Malformed)
    ));
    // Wrong field name.
    assert!(matches!(
        parse_header_field_multiline(b"author a\n b\n", b"gpgsig"),
        Err(ParseError::Malformed)
    ));
    // No newline at all.
    assert!(matches!(
        parse_header_field_multiline(b"gpgsig no newline", b"gpgsig"),
        Err(ParseError::Malformed)
    ));
}

#[test]
fn header_field_applies_value_parser() {
    let mut input = b"object ".to_vec();
    input.extend_from_slice(b"e69de29bb2d1d6434b8b29ae775ad8c2e48c5391");
    input.extend_from_slice(b"\nrest");
    let (rest, hex) = parse_header_field(&input, b"object", parse_hex_sha1).expect("hex field");
    assert_eq!(hex, &b"e69de29bb2d1d6434b8b29ae775ad8c2e48c5391"[..]);
    assert_eq!(rest, &b"rest"[..]);
}

#[test]
fn header_field_demands_trailing_newline() {
    let input = b"object e69de29bb2d1d6434b8b29ae775ad8c2e48c5391 trailing";
    assert!(matches!(
        parse_header_field(input, b"object", parse_hex_sha1),
        Err(ParseError::Malformed)
    ));
    // The inner parser's error is passed through.
    assert!(matches!(
        parse_header_field(b"object notahash\n", b"object", parse_hex_sha1),
        Err(ParseError::Malformed)
    ));
    assert!(matches!(
        parse_header_field(b"tree x\n", b"object", parse_hex_sha1),
        Err(ParseError::Malformed)
    ));
}
