use sync_vault::digest::{hash_contents, hex_fingerprint};

#[test]
fn hash_contents_known_vectors() {
    assert_eq!(
        hash_contents(b""),
        "e3b0c44298fc1c149afbf4c8996fb92427ae41e4649b934ca495991b7852b855"
    );
    assert_eq!(
        hash_contents(b"abc"),
        "ba7816bf8f01cfea414140de5dae2223b00361a396177a9cb410ff61f20015ad"
    );
}

#[test]
fn hash_contents_is_lowercase_hex_of_64_digits() {
    let h = hash_contents(b"sync vault");
    assert_eq!(h.len(), 64);
    assert!(h.chars().all(|c| c.is_ascii_digit() || ('a'..='f').contains(&c)));
    assert_ne!(h, hash_contents(b"sync vault!"));
}

#[test]
fn hex_fingerprint_two_digits_per_byte() {
    assert_eq!(hex_fingerprint(&[0xde, 0xad, 0x00, 0x0f, 0xf0]), "dead000ff0");
    assert_eq!(hex_fingerprint(&[]), "");
}
