use configmaton::ancha::MyHash;

#[test]
fn byte_strings_hash_by_xxhash() {
    let key: &[u8] = b"hello";
    assert_eq!(key.my_hash(), twox_hash::XxHash64::oneshot(1234, b"hello") as usize);
    assert_ne!(key.my_hash(), twox_hash::XxHash64::oneshot(1234, b"hellp") as usize);
    let other: &[u8] = b"hellp";
    assert_ne!(key.my_hash(), other.my_hash());
}

#[test]
fn small_keys_hash_to_themselves() {
    assert_eq!(7u8.my_hash(), 7);
    assert_eq!(300u32.my_hash(), 300);
}
