use simd_text::{split_fields, split_records};

fn records(data: &[u8], d: u8) -> Vec<Vec<&[u8]>> {
    split_records(data, d).collect().into_iter().map(|f| f.collect()).collect()
}

#[test]
fn basic_split() {
    let fields: Vec<_> = split_fields(b"a,b,c", b',').collect();
    assert_eq!(fields, vec![b"a".as_slice(), b"b", b"c"]);
}

#[test]
fn single_field() {
    let fields: Vec<_> = split_fields(b"hello", b',').collect();
    assert_eq!(fields, vec![b"hello".as_slice()]);
}

#[test]
fn empty_fields() {
    let fields: Vec<_> = split_fields(b",,", b',').collect();
    assert_eq!(fields, vec![b"".as_slice(), b"", b""]);
}

#[test]
fn fields_empty_input() {
    let fields: Vec<_> = split_fields(b"", b',').collect();
    assert_eq!(fields, vec![b"".as_slice()]);
}

#[test]
fn tab_delimiter() {
    let fields: Vec<_> = split_fields(b"a\tb\tc", b'\t').collect();
    assert_eq!(fields, vec![b"a".as_slice(), b"b", b"c"]);
}

#[test]
fn records_basic() {
    let data = b"name,age\nAlice,30\nBob,25\n";
    let records: Vec<Vec<&[u8]>> = records(data, b',');
    assert_eq!(records.len(), 3);
    assert_eq!(records[0], vec![b"name".as_slice(), b"age"]);
    assert_eq!(records[1], vec![b"Alice".as_slice(), b"30"]);
    assert_eq!(records[2], vec![b"Bob".as_slice(), b"25"]);
}

#[test]
fn records_no_trailing_newline() {
    let data = b"a,b\nc,d";
    let records: Vec<Vec<&[u8]>> = records(data, b',');
    assert_eq!(records.len(), 2);
}

#[test]
fn null_delimiter() {
    let data = b"a\x00b\x00c";
    let fields: Vec<_> = split_fields(data, b'\0').collect();
    assert_eq!(fields, vec![b"a".as_slice(), b"b", b"c"]);
}

#[test]
fn delimiter_at_boundaries() {
    // Delimiter at start and end
    let fields: Vec<_> = split_fields(b",a,", b',').collect();
    assert_eq!(fields, vec![b"".as_slice(), b"a", b""]);
}

#[test]
fn records_empty_input() {
    let records: Vec<Vec<&[u8]>> = records(b"", b',');
    assert!(records.is_empty());
}

#[test]
fn fields_next_one_by_one() {
    let mut f = split_fields(b"x;y", b';');
    assert_eq!(f.next(), Some(b"x".as_slice()));
    assert_eq!(f.next(), Some(b"y".as_slice()));
    assert_eq!(f.next(), None);
    assert_eq!(f.next(), None);
}

#[test]
fn records_doc_example() {
    let data = b"a,b,c\n1,2,3\n";
    let records = records(data, b',');
    assert_eq!(records.len(), 2);
    assert_eq!(records[0], vec![b"a".as_slice(), b"b", b"c"]);
    assert_eq!(records[1], vec![b"1".as_slice(), b"2", b"3"]);
}

#[test]
fn records_next_one_by_one() {
    let mut r = split_records(b"p:q\r\nr", b':');
    let first: Vec<&[u8]> = r.next().unwrap().collect();
    assert_eq!(first, vec![b"p".as_slice(), b"q"]);
    let second: Vec<&[u8]> = r.next().unwrap().collect();
    assert_eq!(second, vec![b"r".as_slice()]);
    assert!(r.next().is_none());
}
