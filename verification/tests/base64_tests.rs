use simd_text::base64::{decoded_len, encoded_len};
use simd_text::{base64_decode, base64_encode, DecodeError};

fn roundtrip(input: &[u8]) {
    let enc_len = encoded_len(input.len());
    let mut encoded = vec![0u8; enc_len];
    let elen = base64_encode(input, &mut encoded);
    encoded.truncate(elen);

    let dec_len = decoded_len(elen);
    let mut decoded = vec![0u8; dec_len];
    let dlen = base64_decode(&encoded, &mut decoded).unwrap();
    decoded.truncate(dlen);

    assert_eq!(&decoded, input, "roundtrip failed for input of len {}", input.len());
}

#[test]
fn roundtrip_empty() {
    roundtrip(b"");
}

#[test]
fn roundtrip_one() {
    roundtrip(b"a");
}

#[test]
fn roundtrip_two() {
    roundtrip(b"ab");
}

#[test]
fn roundtrip_three() {
    roundtrip(b"abc");
}

#[test]
fn roundtrip_hello() {
    roundtrip(b"Hello, World!");
}

#[test]
fn roundtrip_binary() {
    let data: Vec<u8> = (0..=255).collect();
    roundtrip(&data);
}

#[test]
fn encode_known_vectors() {
    let cases = [
        (b"" as &[u8], ""),
        (b"f", "Zg=="),
        (b"fo", "Zm8="),
        (b"foo", "Zm9v"),
        (b"foob", "Zm9vYg=="),
        (b"fooba", "Zm9vYmE="),
        (b"foobar", "Zm9vYmFy"),
    ];

    for (input, expected) in cases {
        let mut output = vec![0u8; encoded_len(input.len())];
        let len = base64_encode(input, &mut output);
        assert_eq!(
            core::str::from_utf8(&output[..len]).unwrap(),
            expected,
            "encode failed for {:?}",
            core::str::from_utf8(input).unwrap()
        );
    }
}

#[test]
fn decode_invalid() {
    let err = base64_decode(b"!!!!", &mut [0u8; 4]).unwrap_err();
    assert_eq!(err.position, 0);
}

#[test]
fn roundtrip_large() {
    let data: Vec<u8> = (0..1000).map(|i| (i % 256) as u8).collect();
    roundtrip(&data);
}

#[test]
fn encode_doc_example() {
    let input = b"Hello, World!";
    let mut output = vec![0u8; 20];
    let len = base64_encode(input, &mut output);
    assert_eq!(&output[..len], b"SGVsbG8sIFdvcmxkIQ==");
}

#[test]
fn decode_doc_example() {
    let input = b"SGVsbG8sIFdvcmxkIQ==";
    let mut output = vec![0u8; 15];
    let len = base64_decode(input, &mut output).unwrap();
    assert_eq!(&output[..len], b"Hello, World!");
}

#[test]
fn encode_leaves_rest_of_buffer() {
    let mut output = vec![b'#'; 10];
    let len = base64_encode(b"fo", &mut output);
    assert_eq!(len, 4);
    assert_eq!(&output[..], b"Zm8=######");
}

#[test]
fn decode_length_not_multiple_of_four() {
    let err = base64_decode(b"Zm9", &mut [0u8; 3]).unwrap_err();
    assert_eq!(err, DecodeError { position: 3 });
}

#[test]
fn decode_empty() {
    assert_eq!(base64_decode(b"", &mut []).unwrap(), 0);
}

#[test]
fn decode_invalid_in_later_group_keeps_earlier_output() {
    let mut output = [0u8; 6];
    let err = base64_decode(b"Zm9vY!==", &mut output).unwrap_err();
    assert_eq!(err.position, 5);
    assert_eq!(&output[..3], b"foo");
}

#[test]
fn decode_invalid_positions_in_group() {
    assert_eq!(base64_decode(b"Z!9v", &mut [0u8; 3]).unwrap_err().position, 1);
    assert_eq!(base64_decode(b"Zm!v", &mut [0u8; 3]).unwrap_err().position, 2);
    assert_eq!(base64_decode(b"Zm9!", &mut [0u8; 3]).unwrap_err().position, 3);
    assert_eq!(base64_decode(b"=m9v", &mut [0u8; 3]).unwrap_err().position, 0);
}

#[test]
fn decode_refuses_padding_before_the_last_group() {
    let mut output = [0u8; 6];
    assert_eq!(base64_decode(b"Zg==Zm8=", &mut output).unwrap_err().position, 2);
    assert_eq!(base64_decode(b"Zm8=Zm8=", &mut output).unwrap_err().position, 3);
    let mut output = [0u8; 9];
    let err = base64_decode(b"Zm9vZg==Zm9v", &mut output).unwrap_err();
    assert_eq!(err.position, 6);
    assert_eq!(&output[..3], b"foo");
}

#[test]
fn decode_refuses_character_after_single_padding() {
    let mut output = [0u8; 3];
    assert_eq!(base64_decode(b"Zg=x", &mut output).unwrap_err().position, 3);
    assert_eq!(base64_decode(b"Zg=A", &mut output).unwrap_err().position, 3);
    assert_eq!(base64_decode(b"Zg==", &mut output).unwrap(), 1);
    assert_eq!(base64_decode(b"Zm8=", &mut output).unwrap(), 2);
}

#[test]
fn lengths() {
    assert_eq!(encoded_len(0), 0);
    assert_eq!(encoded_len(1), 4);
    assert_eq!(encoded_len(3), 4);
    assert_eq!(encoded_len(4), 8);
    assert_eq!(decoded_len(8), 6);
    assert_eq!(decoded_len(7), 3);
}

#[test]
fn decode_error_display() {
    let msg = DecodeError { position: 17 }.to_string();
    assert_eq!(msg, "invalid base64 at position 17");
}

#[test]
fn decode_into_exactly_sized_buffer() {
    let mut output = [0u8; 1];
    assert_eq!(base64_decode(b"Zg==", &mut output).unwrap(), 1);
    assert_eq!(&output, b"f");
}
