//! Properties checked against straightforward reference computations, over a
//! fixed corpus of pseudo-random inputs.

use simd_text::{
    base64_decode, base64_encode, line_ranges, parse_integer, validate_utf8, CharClassifier,
};

/// A small deterministic generator (linear congruential).
struct Gen(u64);

impl Gen {
    fn next(&mut self) -> u64 {
        self.0 = self.0.wrapping_mul(6364136223846793005).wrapping_add(1442695040888963407);
        self.0 >> 33
    }

    fn bytes(&mut self, alphabet: &[u8], max_len: usize) -> Vec<u8> {
        let len = (self.next() as usize) % (max_len + 1);
        (0..len).map(|_| alphabet[(self.next() as usize) % alphabet.len()]).collect()
    }
}

fn corpus(alphabet: &[u8], count: usize, max_len: usize, seed: u64) -> Vec<Vec<u8>> {
    let mut g = Gen(seed);
    (0..count).map(|_| g.bytes(alphabet, max_len)).collect()
}

fn all_bytes() -> Vec<u8> {
    (0..=255u8).collect()
}

/// Reference line splitting: split on `\n`, strip a `\r` just before it,
/// keep trailing content, no empty line after a final newline.
fn naive_line_ranges(data: &[u8]) -> Vec<(usize, usize)> {
    if data.is_empty() {
        return Vec::new();
    }

    let mut lines = Vec::new();
    let mut start = 0;

    for (i, &byte) in data.iter().enumerate() {
        if byte == b'\n' {
            let end = if i > start && data[i - 1] == b'\r' { i - 1 } else { i };
            lines.push((start, end));
            start = i + 1;
        }
    }

    if start < data.len() {
        lines.push((start, data.len()));
    }

    lines
}

/// Every byte is ASCII whitespace, a sign or a digit.
fn is_plausible_integer_input(data: &[u8]) -> bool {
    if data.is_empty() {
        return true;
    }
    data.iter()
        .all(|&b| b.is_ascii_digit() || b == b'+' || b == b'-' || b.is_ascii_whitespace())
}

fn trim_ascii(bytes: &[u8]) -> &[u8] {
    let start = bytes.iter().position(|b| !b.is_ascii_whitespace()).unwrap_or(bytes.len());
    let end = bytes.iter().rposition(|b| !b.is_ascii_whitespace()).map_or(start, |p| p + 1);
    &bytes[start..end]
}

#[test]
fn utf8_agrees_with_std() {
    let mut inputs = corpus(&all_bytes(), 400, 40, 1);
    let text = "aé€😀\n".as_bytes();
    inputs.extend(corpus(text, 400, 40, 2));
    for data in &inputs {
        match (validate_utf8(data), std::str::from_utf8(data)) {
            (Ok(()), Ok(_)) => {}
            (Err(ours), Err(std_err)) => assert_eq!(ours.valid_up_to, std_err.valid_up_to()),
            (ours, theirs) => panic!("disagreement on {:?}: {:?} vs {:?}", data, ours, theirs.is_ok()),
        }
    }
}

#[test]
fn line_ranges_agree_with_naive() {
    for data in corpus(b"ab\r\n", 500, 30, 3) {
        let ours: Vec<(usize, usize)> = line_ranges(&data).collect();
        let naive = naive_line_ranges(&data);
        assert_eq!(ours.len(), naive.len());
        for (a, b) in ours.iter().zip(naive.iter()) {
            assert_eq!(&data[a.0..a.1], &data[b.0..b.1]);
        }
    }
}

#[test]
fn classify_agrees_with_naive() {
    const CLASSIFY_CHARS: &[u8] = b" ,\n\t:;";
    let classifier = CharClassifier::new(CLASSIFY_CHARS);
    for data in corpus(&all_bytes(), 300, 60, 4) {
        let naive: Vec<usize> = data
            .iter()
            .enumerate()
            .filter_map(|(i, &b)| if CLASSIFY_CHARS.contains(&b) { Some(i) } else { None })
            .collect();
        assert_eq!(classifier.find_all(&data), naive);
    }
}

#[test]
fn base64_roundtrip_and_alphabet() {
    for data in corpus(&all_bytes(), 300, 50, 5) {
        let encoded_len = ((data.len() + 2) / 3) * 4;
        let mut encoded = vec![0u8; encoded_len];
        let enc_written = base64_encode(&data, &mut encoded);
        encoded.truncate(enc_written);
        assert_eq!(enc_written % 4, 0);
        for &b in &encoded {
            assert!(b.is_ascii_alphanumeric() || b == b'+' || b == b'/' || b == b'=');
        }
        let mut decoded = vec![0u8; (enc_written / 4) * 3];
        let dec_written = base64_decode(&encoded, &mut decoded).unwrap();
        decoded.truncate(dec_written);
        assert_eq!(decoded, data);

        if !data.is_empty() {
            let mut out = vec![0u8; ((data.len() + 3) / 4) * 3];
            let _ = base64_decode(&data, &mut out);
        }
    }
}

#[test]
fn parse_integer_agrees_with_std() {
    for data in corpus(b"0123456789+- \t9", 800, 22, 6) {
        if !is_plausible_integer_input(&data) {
            continue;
        }
        let as_str = std::str::from_utf8(trim_ascii(&data)).unwrap();
        let ours: Result<i64, _> = parse_integer(&data);
        let theirs: Result<i64, _> = as_str.parse();
        assert_eq!(ours.ok(), theirs.ok(), "i64 on {:?}", as_str);
        let ours: Result<u64, _> = parse_integer(&data);
        let theirs: Result<u64, _> = as_str.parse();
        assert_eq!(ours.ok(), theirs.ok(), "u64 on {:?}", as_str);
    }
}
