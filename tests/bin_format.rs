use train_ute::bin_format::encode_bin;

#[test]
fn packs_header_and_aligned_chunks() {
    let data = vec![vec![1u8, 2, 3], vec![], vec![9u8; 8]];
    let out = encode_bin(&data);
    let mut expected = Vec::new();
    for (offset, len) in [(24u32, 3u32), (32, 0), (32, 8)] {
        expected.extend_from_slice(&offset.to_le_bytes());
        expected.extend_from_slice(&len.to_le_bytes());
    }
    expected.extend_from_slice(&[1, 2, 3, 0, 0, 0, 0, 0]);
    expected.extend_from_slice(&[9; 8]);
    assert_eq!(out, expected);
    assert_eq!(out.len(), 40);
}

#[test]
fn packs_nothing_to_nothing() {
    assert_eq!(encode_bin(&vec![]), Vec::<u8>::new());
}

#[test]
fn large_offsets_are_little_endian() {
    let data = vec![vec![7u8; 300], vec![5u8]];
    let out = encode_bin(&data);
    // Second chunk starts after the 16-byte header and 304 padded bytes.
    assert_eq!(&out[8..12], &320u32.to_le_bytes());
    assert_eq!(&out[4..8], &300u32.to_le_bytes());
    assert_eq!(out[320], 5);
    assert_eq!(out.len(), 328);
}
