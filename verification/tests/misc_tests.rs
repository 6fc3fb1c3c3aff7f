use simd_text::{select_level, AlignedBuffer, SimdLevel};

#[test]
fn select_level_prefers_widest() {
    assert_eq!(select_level(true, true), SimdLevel::Avx2);
    assert_eq!(select_level(true, false), SimdLevel::Avx2);
    assert_eq!(select_level(false, true), SimdLevel::Sse42);
    assert_eq!(select_level(false, false), SimdLevel::Scalar);
}

#[test]
fn aligned_buffer_operations() {
    let mut b = AlignedBuffer::new(128);
    assert!(b.as_slice().is_empty());
    b.extend_from_slice(b"abc");
    b.extend_from_slice(b"de");
    assert_eq!(b.as_slice(), b"abcde");
    b.as_mut_vec().push(b'f');
    assert_eq!(b.as_slice(), b"abcdef");
    b.clear();
    assert!(b.as_slice().is_empty());
}
