use simd_text::{
    extract_numbers, float_text, parse_integer, NumberKind, NumberSpan, ParseError, ParseErrorKind,
};

#[test]
fn parse_u32() {
    let v: u32 = parse_integer(b"12345").unwrap();
    assert_eq!(v, 12345);
}

#[test]
fn parse_i32_negative() {
    let v: i32 = parse_integer(b"-42").unwrap();
    assert_eq!(v, -42);
}

#[test]
fn parse_with_plus() {
    let v: i64 = parse_integer(b"+999").unwrap();
    assert_eq!(v, 999);
}

#[test]
fn parse_with_whitespace() {
    let v: u32 = parse_integer(b"  123  ").unwrap();
    assert_eq!(v, 123);
}

#[test]
fn parse_zero() {
    let v: u32 = parse_integer(b"0").unwrap();
    assert_eq!(v, 0);
}

#[test]
fn parse_empty() {
    let err = parse_integer::<u32>(b"").unwrap_err();
    assert_eq!(err.kind, ParseErrorKind::Empty);
}

#[test]
fn parse_invalid() {
    let err = parse_integer::<u32>(b"abc").unwrap_err();
    assert_eq!(err.kind, ParseErrorKind::InvalidDigit);
}

#[test]
fn parse_overflow() {
    let err = parse_integer::<u8>(b"256").unwrap_err();
    assert_eq!(err.kind, ParseErrorKind::Overflow);
}

#[test]
fn extract_numbers_mixed() {
    let data = b"temp=23 latency=1.5ms code=0xDEAD count=-3";
    let spans = extract_numbers(data);
    assert_eq!(spans.len(), 4);
    assert_eq!(spans[0].kind, NumberKind::Integer);
    assert_eq!(&data[spans[0].offset..spans[0].offset + spans[0].len], b"23");
    assert_eq!(spans[1].kind, NumberKind::Float);
    assert_eq!(&data[spans[1].offset..spans[1].offset + spans[1].len], b"1.5");
    assert_eq!(spans[2].kind, NumberKind::Hex);
    assert_eq!(&data[spans[2].offset..spans[2].offset + spans[2].len], b"0xDEAD");
    assert_eq!(spans[3].kind, NumberKind::Integer);
    assert_eq!(&data[spans[3].offset..spans[3].offset + spans[3].len], b"-3");
}

#[test]
fn extract_numbers_empty() {
    assert!(extract_numbers(b"no numbers here").is_empty());
}

#[test]
fn parse_error_display() {
    let err = ParseError { kind: ParseErrorKind::Empty, position: 0 };
    assert!(err.to_string().contains("empty"));

    let err = ParseError { kind: ParseErrorKind::InvalidDigit, position: 3 };
    assert!(err.to_string().contains("position 3"));

    let err = ParseError { kind: ParseErrorKind::Overflow, position: 5 };
    assert!(err.to_string().contains("overflow"));

    let err = ParseError { kind: ParseErrorKind::InvalidFloat, position: 0 };
    assert!(err.to_string().contains("invalid float"));
}

#[test]
fn parse_whitespace_only() {
    let err = parse_integer::<u32>(b"   ").unwrap_err();
    assert_eq!(err.kind, ParseErrorKind::Empty);
}

#[test]
fn parse_bare_sign() {
    let err = parse_integer::<i32>(b"+").unwrap_err();
    assert_eq!(err.kind, ParseErrorKind::InvalidDigit);

    let err = parse_integer::<i32>(b"-").unwrap_err();
    assert_eq!(err.kind, ParseErrorKind::InvalidDigit);
}

#[test]
fn extract_numbers_empty_input() {
    assert!(extract_numbers(b"").is_empty());
}

#[test]
fn parse_leading_zeros() {
    let v: u32 = parse_integer(b"007").unwrap();
    assert_eq!(v, 7);
}

#[test]
fn parse_doc_examples() {
    let value: i32 = parse_integer(b"42").unwrap();
    assert_eq!(value, 42);
    let value: i64 = parse_integer(b"-1000").unwrap();
    assert_eq!(value, -1000);
    let value: u32 = parse_integer(b"+123").unwrap();
    assert_eq!(value, 123);
}

#[test]
fn parse_error_positions() {
    assert_eq!(
        parse_integer::<u32>(b" 12a4 ").unwrap_err(),
        ParseError { kind: ParseErrorKind::InvalidDigit, position: 3 }
    );
    assert_eq!(
        parse_integer::<u32>(b" 1a").unwrap_err(),
        ParseError { kind: ParseErrorKind::InvalidDigit, position: 2 }
    );
    assert_eq!(
        parse_integer::<u8>(b"\t\t300").unwrap_err(),
        ParseError { kind: ParseErrorKind::Overflow, position: 4 }
    );
    assert_eq!(
        parse_integer::<i32>(b"  -").unwrap_err(),
        ParseError { kind: ParseErrorKind::InvalidDigit, position: 3 }
    );
    assert_eq!(
        parse_integer::<u32>(b"  \n ").unwrap_err(),
        ParseError { kind: ParseErrorKind::Empty, position: 0 }
    );
    assert_eq!(
        parse_integer::<u8>(b"1000").unwrap_err(),
        ParseError { kind: ParseErrorKind::Overflow, position: 3 }
    );
    assert_eq!(
        parse_integer::<u32>(b"-5").unwrap_err(),
        ParseError { kind: ParseErrorKind::InvalidDigit, position: 0 }
    );
    assert_eq!(
        parse_integer::<u32>(b"+").unwrap_err(),
        ParseError { kind: ParseErrorKind::InvalidDigit, position: 1 }
    );
}

#[test]
fn parse_type_limits() {
    assert_eq!(parse_integer::<i8>(b"-128").unwrap(), -128);
    assert_eq!(parse_integer::<i8>(b"127").unwrap(), 127);
    assert_eq!(parse_integer::<i8>(b"-129").unwrap_err().kind, ParseErrorKind::Overflow);
    assert_eq!(parse_integer::<u64>(b"18446744073709551615").unwrap(), u64::MAX);
    assert_eq!(parse_integer::<u64>(b"18446744073709551616").unwrap_err().kind, ParseErrorKind::Overflow);
    assert_eq!(parse_integer::<i64>(b"-9223372036854775808").unwrap(), i64::MIN);
    assert_eq!(parse_integer::<u128>(b"340282366920938463463374607431768211455").unwrap(), u128::MAX);
    assert_eq!(parse_integer::<i128>(b"-170141183460469231731687303715884105728").unwrap(), i128::MIN);
    assert_eq!(parse_integer::<i128>(b"170141183460469231731687303715884105728").unwrap_err().kind, ParseErrorKind::Overflow);
    assert_eq!(parse_integer::<u16>(b"\t65535\r\n").unwrap(), 65535);
    assert_eq!(parse_integer::<isize>(b"-7").unwrap(), -7);
    assert_eq!(parse_integer::<usize>(b"7").unwrap(), 7);
}

#[test]
fn extract_numbers_doc_example() {
    let data = b"latency=42ms p99=3.14 code=0xFF";
    let spans = extract_numbers(data);
    assert_eq!(spans.len(), 4);
    assert_eq!(spans[0].kind, NumberKind::Integer);
    assert_eq!(spans[1].kind, NumberKind::Integer);
    assert_eq!(spans[2].kind, NumberKind::Float);
    assert_eq!(spans[3].kind, NumberKind::Hex);
}

#[test]
fn extract_numbers_edge_cases() {
    // exponent with sign, bare exponent marker, hex without digits, lone sign
    let data = b"1e+5 2e x0x 0xg -. 7.";
    let spans = extract_numbers(data);
    let texts: Vec<(&[u8], NumberKind)> =
        spans.iter().map(|s| (&data[s.offset..s.offset + s.len], s.kind)).collect();
    assert_eq!(
        texts,
        vec![
            (b"1e+5".as_slice(), NumberKind::Float),
            (b"2".as_slice(), NumberKind::Integer),
            (b"0".as_slice(), NumberKind::Integer),
            (b"0".as_slice(), NumberKind::Integer),
            (b"7".as_slice(), NumberKind::Integer),
        ]
    );
}

#[test]
fn extract_numbers_keeps_zero_before_bare_hex_marker() {
    let data = b"0xg";
    let spans = extract_numbers(data);
    assert_eq!(spans, vec![NumberSpan { offset: 0, len: 1, kind: NumberKind::Integer }]);
    let data = b"0x1g 0Xz";
    let spans = extract_numbers(data);
    assert_eq!(
        spans,
        vec![
            NumberSpan { offset: 0, len: 3, kind: NumberKind::Hex },
            NumberSpan { offset: 5, len: 1, kind: NumberKind::Integer },
        ]
    );
}

#[test]
fn extract_numbers_covers_every_digit() {
    let data = b"a1 0x 0xZ 2.e5 -3e+ 4.5.6 0x0x9";
    let spans = extract_numbers(data);
    for (j, b) in data.iter().enumerate() {
        if b.is_ascii_digit() {
            assert!(spans.iter().any(|s| s.offset <= j && j < s.offset + s.len), "digit at {}", j);
        }
    }
}

#[test]
fn extract_numbers_hex_marker_at_end() {
    let data = b"v=0x";
    let spans = extract_numbers(data);
    assert_eq!(spans.len(), 1);
    assert_eq!((spans[0].offset, spans[0].len, spans[0].kind), (2, 1, NumberKind::Integer));
}

#[test]
fn float_text_checks() {
    assert_eq!(float_text(b"  3.5 ").unwrap(), b"3.5");
    assert_eq!(float_text(b"   ").unwrap_err().kind, ParseErrorKind::Empty);
    assert_eq!(
        float_text(b" 1\xC3\xA9").unwrap_err(),
        ParseError { kind: ParseErrorKind::InvalidDigit, position: 2 }
    );
}

#[test]
fn parse_error_messages_exact() {
    assert_eq!(ParseError { kind: ParseErrorKind::Overflow, position: 12 }.to_string(), "overflow at position 12");
    assert_eq!(ParseError { kind: ParseErrorKind::Empty, position: 9 }.to_string(), "empty input");
}
