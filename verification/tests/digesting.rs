use polymath::digest::{hash_content, to_hex};

#[test]
fn hash_content_matches_known_sha256() {
    // SHA-256("abc"), a published test vector.
    let h = hash_content(b"abc");
    assert_eq!(
        String::from_utf8(h).unwrap(),
        "ba7816bf8f01cfea414140de5dae2223b00361a396177a9cb410ff61f20015ad"
    );
}

#[test]
fn hash_content_of_empty_input() {
    let h = hash_content(b"");
    assert_eq!(
        String::from_utf8(h).unwrap(),
        "e3b0c44298fc1c149afbf4c8996fb92427ae41e4649b934ca495991b7852b855"
    );
}

#[test]
fn identical_content_hashes_identically() {
    assert_eq!(hash_content(b"same text"), hash_content(b"same text"));
    assert_ne!(hash_content(b"same text"), hash_content(b"other text"));
}

#[test]
fn to_hex_encodes_each_byte_as_two_digits() {
    let h = to_hex(&vec![0x00u8, 0x0f, 0xa5, 0xff]);
    assert_eq!(String::from_utf8(h).unwrap(), "000fa5ff");
    assert_eq!(to_hex(&Vec::new()).len(), 0);
}
