use simd_text::{
    base64_decode, base64_encode, line_ranges, parse_integer, pipeline, split_fields,
    validate_utf8,
};

#[test]
fn pipeline_validate_and_split() {
    let pipe = pipeline().validate_utf8().split_lines().build();

    let data = b"hello\nworld\n";
    let results = pipe.process(data);
    assert!(results.utf8_valid);
    assert_eq!(results.lines.len(), 2);
    assert_eq!(results.lines[0], (0, 5));
    assert_eq!(results.lines[1], (6, 11));
}

#[test]
fn pipeline_all_stages() {
    let pipe = pipeline()
        .validate_utf8()
        .split_lines()
        .classify(b",")
        .extract_numbers()
        .build();

    let data = b"name,age\nAlice,30\n";
    let results = pipe.process(data);
    assert!(results.utf8_valid);
    assert_eq!(results.lines.len(), 2);
    assert!(!results.classifications.is_empty()); // commas found
    assert!(!results.numbers.is_empty()); // "30" found
}

#[test]
fn pipeline_invalid_utf8() {
    let pipe = pipeline().validate_utf8().build();
    let data = &[0xFF, 0xFE];
    let results = pipe.process(data);
    assert!(!results.utf8_valid);
}

#[test]
fn pipeline_empty() {
    let pipe = pipeline().validate_utf8().split_lines().build();
    let results = pipe.process(b"");
    assert!(results.utf8_valid);
    assert!(results.lines.is_empty());
}

#[test]
fn pipeline_numbers_only() {
    let pipe = pipeline().extract_numbers().build();
    let data = b"x=42 y=3.14";
    let results = pipe.process(data);
    assert_eq!(results.numbers.len(), 2);
}

#[test]
fn pipeline_classify_empty_chars() {
    let pipe = pipeline().classify(b"").build();
    let data = b"hello world";
    let results = pipe.process(data);
    assert!(results.classifications.is_empty());
}

#[test]
fn pipeline_no_stages() {
    let pipe = pipeline().build();
    let data = b"hello";
    let results = pipe.process(data);
    assert!(results.utf8_valid); // default true when not validated
    assert!(results.lines.is_empty());
    assert!(results.classifications.is_empty());
    assert!(results.numbers.is_empty());
}

#[test]
fn pipeline_last_classify_wins() {
    let pipe = pipeline().classify(b",").classify(b";").build();
    let results = pipe.process(b"a,b;c");
    assert_eq!(results.classifications, vec![3]);
}

#[test]
fn end_to_end_csv_like() {
    let data = b"name,age,city\nAlice,30,NYC\nBob,25,LA\n";

    // Validate
    assert!(validate_utf8(data).is_ok());

    // Split lines
    let lines: Vec<_> = line_ranges(data).collect();
    assert_eq!(lines.len(), 3);

    // Extract fields from second line
    let line = &data[lines[1].0..lines[1].1];
    let fields: Vec<_> = split_fields(line, b',').collect();
    assert_eq!(fields.len(), 3);
    assert_eq!(fields[0], b"Alice");
    assert_eq!(fields[1], b"30");
    assert_eq!(fields[2], b"NYC");

    // Parse the age
    let age: u32 = parse_integer(fields[1]).unwrap();
    assert_eq!(age, 30);
}

#[test]
fn end_to_end_base64_roundtrip() {
    let original = b"Hello, SIMD world! 1234567890";
    let mut encoded = vec![0u8; original.len() * 2];
    let enc_len = base64_encode(original, &mut encoded);
    encoded.truncate(enc_len);

    let mut decoded = vec![0u8; encoded.len()];
    let dec_len = base64_decode(&encoded, &mut decoded).unwrap();
    decoded.truncate(dec_len);

    assert_eq!(&decoded, original);
}
