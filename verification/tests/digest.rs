use pcore_blake3::digest::hash_bytes;

#[test]
fn hash_bytes_matches_reference_blake3() {
    // Both sides of BLAKE3's 1024-byte chunk boundary and a multi-chunk
    // buffer where the parallel tree path actually engages.
    for len in [0usize, 1, 1023, 1024, 1025, 1 << 20] {
        let data: Vec<u8> = (0..len).map(|i| (i % 251) as u8).collect();
        assert_eq!(hash_bytes(&data), *blake3::hash(&data).as_bytes(), "len {len}");
    }
}

#[test]
fn hash_bytes_of_known_input() {
    let got = hash_bytes(b"hello pcore-blake3");
    assert_eq!(got, *blake3::hash(b"hello pcore-blake3").as_bytes());
    // The empty input's BLAKE3 digest, from the BLAKE3 specification.
    let empty = hash_bytes(b"");
    assert_eq!(empty[0], 0xaf);
    assert_eq!(empty[1], 0x13);
    assert_eq!(empty[31], 0x62);
    assert_ne!(got.to_vec(), b"hello pcore-blake3".to_vec());
}
