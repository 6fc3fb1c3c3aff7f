use simd_text::CharClassifier;

#[test]
fn whitespace_classifier() {
    let ws = CharClassifier::new(b" \t\r\n");
    let data = b"hello world\t!\r\n";
    let positions = ws.find_all(data);
    assert_eq!(positions, vec![5, 11, 13, 14]);
}

#[test]
fn digit_classifier() {
    let digits = CharClassifier::new(b"0123456789");
    let data = b"abc123def456";
    let positions = digits.find_all(data);
    assert_eq!(positions, vec![3, 4, 5, 9, 10, 11]);
}

#[test]
fn csv_delimiters() {
    let csv = CharClassifier::new(b",\n\"");
    let data = b"name,age\n\"Bob\",30\n";
    let positions = csv.find_all(data);
    assert!(positions.contains(&4)); // comma
    assert!(positions.contains(&8)); // \n
    assert!(positions.contains(&9)); // "
    assert!(positions.contains(&13)); // "
    assert!(positions.contains(&14)); // comma
    assert!(positions.contains(&17)); // \n
}

#[test]
fn single_char() {
    let c = CharClassifier::new(b"x");
    let data = b"axbxcxd";
    assert_eq!(c.find_all(data), vec![1, 3, 5]);
}

#[test]
fn no_matches() {
    let c = CharClassifier::new(b"z");
    let data = b"hello world";
    assert!(c.find_all(data).is_empty());
}

#[test]
fn classify_empty_input() {
    let c = CharClassifier::new(b" ");
    assert!(c.find_all(b"").is_empty());
}

#[test]
fn empty_char_set() {
    let c = CharClassifier::new(b"");
    assert!(c.find_all(b"hello world 123!@#").is_empty());
}

#[test]
fn non_ascii_chars_ignored() {
    // Non-ASCII bytes in the char set should be silently ignored
    let c = CharClassifier::new(&[0xFF, 0x80, b'x']);
    let data = b"axbxc";
    assert_eq!(c.find_all(data), vec![1, 3]);
}

#[test]
fn scan_callback() {
    let c = CharClassifier::new(b".");
    let mut found = Vec::new();
    c.scan(b"a.b.c", |pos| found.push(pos));
    assert_eq!(found, vec![1, 3]);
}

#[test]
fn classify_large_input() {
    let c = CharClassifier::new(b"\n");
    let mut data = vec![b'a'; 1000];
    data[100] = b'\n';
    data[500] = b'\n';
    data[999] = b'\n';
    let positions = c.find_all(&data);
    assert_eq!(positions, vec![100, 500, 999]);
}

#[test]
fn classifier_doc_example() {
    let ws = CharClassifier::new(b" \t\r\n");
    let data = b"hello world\tfoo\nbar";
    assert_eq!(ws.find_all(data), vec![5, 11, 15]);
}

#[test]
fn classifier_matches_naive_for_few_chars() {
    let chars = b" ,\n\t:;";
    let c = CharClassifier::new(chars);
    let data: Vec<u8> = (0..=255u8).chain(b"a, b;\tc:\n".iter().copied()).collect();
    let naive: Vec<usize> = data
        .iter()
        .enumerate()
        .filter(|(_, b)| chars.contains(b))
        .map(|(i, _)| i)
        .collect();
    assert_eq!(c.find_all(&data), naive);
}

#[test]
fn classifier_with_more_than_eight_chars_finds_all_of_them() {
    let chars = b"abcdefghijk";
    let c = CharClassifier::new(chars);
    let data = b"xyz abcdefghijk";
    let found = c.find_all(data);
    for i in 4..data.len() {
        assert!(found.contains(&i));
    }
    // nothing outside ASCII is ever reported
    assert!(c.find_all(&[0x80, 0xE1, 0xFF]).is_empty());
}

#[test]
fn more_than_eight_characters_stay_exact() {
    let c = CharClassifier::new(b"abcdefghq");
    assert_eq!(c.find_all(b"qr"), vec![0]);
    let all: Vec<u8> = (0u8..128).collect();
    let every = CharClassifier::new(&all);
    assert_eq!(every.find_all(b"a\x7f\x80z"), vec![0, 1, 3]);
    let digits = CharClassifier::new(b"0123456789,;");
    assert_eq!(digits.find_all(b"a1,b;2\xb0"), vec![1, 2, 4, 5]);
}
