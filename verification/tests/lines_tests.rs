use simd_text::{line_ranges, LineScanner, ScanStep};

#[test]
fn mod_empty_input() {
    let lines: Vec<_> = line_ranges(b"").collect();
    assert!(lines.is_empty());
}

#[test]
fn single_line_no_newline() {
    let lines: Vec<_> = line_ranges(b"hello").collect();
    assert_eq!(lines, vec![(0, 5)]);
}

#[test]
fn single_line_with_newline() {
    let lines: Vec<_> = line_ranges(b"hello\n").collect();
    assert_eq!(lines, vec![(0, 5)]);
}

#[test]
fn multiple_lines() {
    let lines: Vec<_> = line_ranges(b"a\nb\nc\n").collect();
    assert_eq!(lines, vec![(0, 1), (2, 3), (4, 5)]);
}

#[test]
fn crlf() {
    let lines: Vec<_> = line_ranges(b"hello\r\nworld\r\n").collect();
    assert_eq!(lines, vec![(0, 5), (7, 12)]);
}

#[test]
fn mixed_endings() {
    let lines: Vec<_> = line_ranges(b"a\nb\r\nc\n").collect();
    assert_eq!(lines, vec![(0, 1), (2, 3), (5, 6)]);
}

#[test]
fn empty_lines() {
    let lines: Vec<_> = line_ranges(b"\n\n\n").collect();
    assert_eq!(lines, vec![(0, 0), (1, 1), (2, 2)]);
}

#[test]
fn trailing_without_newline() {
    let lines: Vec<_> = line_ranges(b"a\nb").collect();
    assert_eq!(lines, vec![(0, 1), (2, 3)]);
}

#[test]
fn mod_large_input() {
    let mut data = Vec::new();
    for _ in 0..1000 {
        data.extend_from_slice(b"some line content here\n");
    }
    let lines: Vec<_> = line_ranges(&data).collect();
    assert_eq!(lines.len(), 1000);
}

/// Reads every line from `source`, handing it over in chunks of at most
/// `chunk` bytes.
fn scan_all(source: &[u8], chunk: usize) -> Vec<Vec<u8>> {
    let mut scanner = LineScanner::new();
    let mut at = 0;
    let mut lines = Vec::new();
    loop {
        match scanner.poll() {
            ScanStep::Line(start, end) => lines.push(scanner.line_bytes(start, end).to_vec()),
            ScanStep::NeedInput => {
                let n = chunk.min(scanner.spare_len()).min(source.len() - at);
                scanner.feed(&source[at..at + n]);
                at += n;
            }
            ScanStep::End => return lines,
        }
    }
}

#[test]
fn line_scanner_basic() {
    let data = b"hello\nworld\n";
    let mut scanner = LineScanner::new();
    let mut fed = false;
    let mut next_line = |scanner: &mut LineScanner| -> Option<Vec<u8>> {
        loop {
            match scanner.poll() {
                ScanStep::Line(start, end) => return Some(scanner.line_bytes(start, end).to_vec()),
                ScanStep::NeedInput => {
                    if fed {
                        scanner.feed(&[]);
                    } else {
                        scanner.feed(&data[..]);
                        fed = true;
                    }
                }
                ScanStep::End => return None,
            }
        }
    };
    assert_eq!(next_line(&mut scanner), Some(b"hello".to_vec()));
    assert_eq!(next_line(&mut scanner), Some(b"world".to_vec()));
    assert_eq!(next_line(&mut scanner), None);
}

#[test]
fn line_scanner_matches_line_ranges() {
    let data = b"alpha\r\nbeta\n\ngamma\r\ndelta";
    let expected: Vec<Vec<u8>> = line_ranges(data)
        .collect()
        .into_iter()
        .map(|(s, e)| data[s..e].to_vec())
        .collect();
    for chunk in [1, 2, 3, 7, 64] {
        assert_eq!(scan_all(data, chunk), expected);
    }
}

#[test]
fn line_scanner_long_line_grows_buffer() {
    let mut data = vec![b'x'; 70 * 1024];
    data.push(b'\n');
    data.extend_from_slice(b"tail");
    let lines = scan_all(&data, 4096);
    assert_eq!(lines.len(), 2);
    assert_eq!(lines[0].len(), 70 * 1024);
    assert_eq!(lines[1], b"tail".to_vec());
}

#[test]
fn line_scanner_read_failure_ends_input() {
    let mut scanner = LineScanner::new();
    assert_eq!(scanner.poll(), ScanStep::NeedInput);
    scanner.feed(b"partial");
    assert_eq!(scanner.poll(), ScanStep::NeedInput);
    scanner.fail();
    match scanner.poll() {
        ScanStep::Line(s, e) => assert_eq!(scanner.line_bytes(s, e), b"partial"),
        other => panic!("unexpected {:?}", other),
    }
    assert_eq!(scanner.poll(), ScanStep::End);
    assert_eq!(scanner.poll(), ScanStep::End);
}

#[test]
fn line_scanner_hands_out_ready_lines_before_asking_for_input() {
    let mut scanner = LineScanner::new();
    assert_eq!(scanner.poll(), ScanStep::NeedInput);
    scanner.feed(b"one\r\ntwo\nthr");
    let mut got = Vec::new();
    loop {
        match scanner.poll() {
            ScanStep::Line(s, e) => got.push(scanner.line_bytes(s, e).to_vec()),
            ScanStep::NeedInput => break,
            ScanStep::End => panic!("input has not ended"),
        }
    }
    assert_eq!(got, vec![b"one".to_vec(), b"two".to_vec()]);
    scanner.feed(b"ee\n");
    match scanner.poll() {
        ScanStep::Line(s, e) => assert_eq!(scanner.line_bytes(s, e), b"three"),
        other => panic!("unexpected {:?}", other),
    }
    assert_eq!(scanner.poll(), ScanStep::NeedInput);
    scanner.feed(b"");
    assert_eq!(scanner.poll(), ScanStep::End);
    assert_eq!(scanner.poll(), ScanStep::End);
}

#[test]
fn line_ranges_doc_examples() {
    let data = b"hello\nworld\n";
    let lines: Vec<_> = line_ranges(data).collect();
    assert_eq!(lines, vec![(0, 5), (6, 11)]);
    let data = b"a\nb";
    let lines: Vec<_> = line_ranges(data).collect();
    assert_eq!(lines, vec![(0, 1), (2, 3)]);
}

#[test]
fn line_ranges_next_one_by_one() {
    let mut it = line_ranges(b"x\r\n\ry\n");
    assert_eq!(it.next(), Some((0, 1)));
    assert_eq!(it.next(), Some((3, 5)));
    assert_eq!(it.next(), None);
    assert_eq!(it.next(), None);
}
