use dup_finder::hash::{hash_bytes, ContentHasher, entry_fingerprint, large_entry_fingerprint};

#[test]
fn test_hash_bytes() {
    let h1 = hash_bytes(b"hello");
    let h2 = hash_bytes(b"hello");
    let h3 = hash_bytes(b"world");
    assert_eq!(h1, h2);
    assert_ne!(h1, h3);
}

#[test]
fn hash_bytes_known_digests() {
    assert_eq!(hash_bytes(b""), "e3b0c44298fc1c149afbf4c8996fb92427ae41e4649b934ca495991b7852b855");
    assert_eq!(hash_bytes(b"abc"), "ba7816bf8f01cfea414140de5dae2223b00361a396177a9cb410ff61f20015ad");
}

#[test]
fn streamed_hash_equals_whole_hash() {
    let mut h = ContentHasher::new();
    h.update(b"hel");
    h.update(b"");
    h.update(b"lo");
    assert_eq!(h.finish(), hash_bytes(b"hello"));
}

#[test]
fn fingerprint_is_first_sixteen_hex_digits() {
    assert_eq!(entry_fingerprint(b"abc"), 0xba7816bf8f01cfea);
    assert_eq!(entry_fingerprint(b""), 0xe3b0c44298fc1c14);
}

#[test]
fn large_fingerprint_mixes_size_and_name_length() {
    assert_eq!(large_entry_fingerprint(2_000_000, "abcd.bin"), 2_000_000 ^ 8);
    assert_eq!(large_entry_fingerprint(0, ""), 0);
}
