use fim::hasher::{hash_bytes, hash_string, hex_string, StreamHasher};

// The expected value of `test_hash_string` and `test_hash_bytes` is the full
// SHA-256 digest of "hello". It stands where the original tests held the
// placeholder "2cf24dba5fb0a030e...replace_with_full_hash", which is not a
// 64-digit hex string and which no SHA-256 digest can equal.
#[test]
fn test_hash_string() {
    let hash = hash_string("hello");
    assert_eq!(
        hash,
        "2cf24dba5fb0a30e26e83b2ac5b9e29e1b161e5c1fa7425e73043362938b9824"
    );
}

#[test]
fn test_hash_bytes() {
    let data = b"hello";
    let hash = hash_bytes(data);
    assert_eq!(
        hash,
        "2cf24dba5fb0a30e26e83b2ac5b9e29e1b161e5c1fa7425e73043362938b9824"
    );
}

#[test]
fn hash_of_empty_input() {
    assert_eq!(
        hash_bytes(&[]),
        "e3b0c44298fc1c149afbf4c8996fb92427ae41e4649b934ca495991b7852b855"
    );
    assert_eq!(hash_string(""), hash_bytes(&[]));
}

#[test]
fn hash_is_64_lowercase_hex_digits() {
    let hash = hash_bytes(&[0u8, 1, 2, 255, 128, 64]);
    assert_eq!(hash.len(), 64);
    assert!(hash.chars().all(|c| c.is_ascii_digit() || ('a'..='f').contains(&c)));
}

#[test]
fn hash_string_is_hash_of_its_utf8_bytes() {
    let s = "grüße, мир";
    assert_eq!(hash_string(s), hash_bytes(s.as_bytes()));
    assert_ne!(hash_string("hello"), hash_string("hellp"));
}

#[test]
fn hex_string_spells_each_byte() {
    assert_eq!(hex_string(&[]), "");
    assert_eq!(hex_string(&[0x00, 0x0f, 0xa5, 0xff]), "000fa5ff");
    assert_eq!(hex_string(&[1, 2, 3, 15, 16]), "0102030f10");
}

#[test]
fn stream_hash_equals_hash_of_concatenation() {
    let mut hasher = StreamHasher::new();
    hasher.update(b"he");
    hasher.update(b"");
    hasher.update(b"llo");
    assert_eq!(hasher.finish(), hash_bytes(b"hello"));
    assert_eq!(StreamHasher::new().finish(), hash_bytes(&[]));
}
