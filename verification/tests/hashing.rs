use mem_attest::hash::{hash_eq, to_hex, Blake3Hasher};

#[test]
fn blake3_of_nothing_is_the_published_digest() {
    let digest = Blake3Hasher::hash(&[]);
    assert_eq!(
        to_hex(&digest),
        "af1349b9f5f9a1a6a0404dea36dcc9499bcb25c9adc112b7cc9a93cae41f3262"
    );
}

#[test]
fn hasher_agrees_with_blake3() {
    let inputs: [&[u8]; 4] = [b"", b"abc", b"memory", &[0u8; 2048]];
    for input in inputs {
        assert_eq!(Blake3Hasher::hash(input), *blake3::hash(input).as_bytes());
    }
}

#[test]
fn hasher_does_not_hand_its_input_back() {
    let input = [9u8; 32];
    assert_ne!(Blake3Hasher::hash(&input), input);
    assert_ne!(Blake3Hasher::hash(&input), Blake3Hasher::hash(&[8u8; 32]));
}

#[test]
fn hex_text_is_lowercase_two_digits_per_byte() {
    assert_eq!(to_hex(&[]), "");
    assert_eq!(to_hex(&[0x00, 0x0f, 0x10, 0xab, 0xff]), "000f10abff");
    assert_eq!(to_hex(&[1, 2, 3, 15, 16]), "0102030f10");
    assert_eq!(to_hex(b"Hello world!"), "48656c6c6f20776f726c6421");
}

#[test]
fn hex_text_agrees_with_the_hex_crate() {
    let bytes: Vec<u8> = (0..=255u8).collect();
    assert_eq!(to_hex(&bytes), hex::encode(&bytes));
}

#[test]
fn hashes_compare_by_content() {
    let a = Blake3Hasher::hash(b"a");
    let mut b = a;
    assert!(hash_eq(&a, &b));
    b[31] ^= 1;
    assert!(!hash_eq(&a, &b));
    b[31] ^= 1;
    b[0] ^= 0x80;
    assert!(!hash_eq(&a, &b));
}
