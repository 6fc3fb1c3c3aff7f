use simd_text::{validate_and_split_lines, validate_utf8, Utf8Error};

#[test]
fn valid_ascii() {
    assert!(validate_utf8(b"hello world").is_ok());
}

#[test]
fn valid_multibyte() {
    assert!(validate_utf8("こんにちは".as_bytes()).is_ok());
    assert!(validate_utf8("emoji: 🎉".as_bytes()).is_ok());
    assert!(validate_utf8("Ñoño".as_bytes()).is_ok());
}

#[test]
fn invalid_continuation() {
    let err = validate_utf8(&[0xC0, 0x80]).unwrap_err();
    assert_eq!(err.valid_up_to, 0);
}

#[test]
fn invalid_overlong() {
    // Overlong encoding of '/'
    let err = validate_utf8(&[0xC0, 0xAF]).unwrap_err();
    assert_eq!(err.valid_up_to, 0);
}

#[test]
fn invalid_surrogate() {
    // UTF-16 surrogate U+D800
    let err = validate_utf8(&[0xED, 0xA0, 0x80]).unwrap_err();
    assert_eq!(err.valid_up_to, 0);
}

#[test]
fn invalid_too_large() {
    // Code point > U+10FFFF
    let err = validate_utf8(&[0xF4, 0x90, 0x80, 0x80]).unwrap_err();
    assert_eq!(err.valid_up_to, 0);
}

#[test]
fn empty() {
    assert!(validate_utf8(b"").is_ok());
}

#[test]
fn validate_and_split() {
    let data = b"a\nb\nc";
    let offsets = validate_and_split_lines(data).unwrap();
    assert_eq!(offsets, vec![1, 3]);
}

#[test]
fn validate_and_split_crlf() {
    let data = b"a\r\nb\r\n";
    let offsets = validate_and_split_lines(data).unwrap();
    // \n at positions 2 and 5
    assert_eq!(offsets, vec![2, 5]);
}

#[test]
fn validate_and_split_invalid() {
    let data = &[b'a', b'\n', 0xFF];
    assert!(validate_and_split_lines(data).is_err());
}

#[test]
fn large_valid_ascii() {
    let data = vec![b'A'; 1024];
    assert!(validate_utf8(&data).is_ok());
}

#[test]
fn large_valid_multibyte() {
    let s = "日本語テスト".repeat(200);
    assert!(validate_utf8(s.as_bytes()).is_ok());
}

#[test]
fn invalid_at_end() {
    let mut data = vec![b'A'; 100];
    data.push(0xFF);
    let err = validate_utf8(&data).unwrap_err();
    assert_eq!(err.valid_up_to, 100);
}

#[test]
fn error_display() {
    let err = Utf8Error { valid_up_to: 42 };
    let msg = err.to_string();
    assert!(msg.contains("42"));
    assert!(msg.contains("invalid UTF-8"));
}

#[test]
fn validate_and_split_empty() {
    let offsets = validate_and_split_lines(b"").unwrap();
    assert!(offsets.is_empty());
}
