use std::borrow::Cow;

use object_storage::bytes_to_sha256_string;
use object_storage::hash_text::is_well_formed_hash;
use object_storage::keys::{compare_keys, KeyOrder};
use object_storage::HashKey;

#[test]
fn bytes_to_sha256_string_valid_32_bytes() {
    let bytes: [u8; 32] = [0xba; 32];
    let s = bytes_to_sha256_string(&bytes).expect("32 bytes should produce Some");
    assert_eq!(s, "sha256:babababababababababababababababababababababababababababababababa");
    assert!(s.starts_with("sha256:"));
    assert_eq!(s.len(), 71);
}

#[test]
fn bytes_to_sha256_string_wrong_length_returns_none() {
    assert!(bytes_to_sha256_string(&[]).is_none());
    assert!(bytes_to_sha256_string(&[0u8; 31]).is_none());
    assert!(bytes_to_sha256_string(&[0u8; 33]).is_none());
}

#[test]
fn hash_key_storable_roundtrip() {
    let key = HashKey::from_bytes(Cow::Borrowed(b"sha256:abc123"));
    let bytes = key.to_bytes();
    let key2 = HashKey::from_bytes(Cow::Owned(bytes.into_owned()));
    assert_eq!(key, key2);
}

#[test]
fn sha256_string_uses_lowercase_hex_high_nibble_first() {
    let mut bytes = [0u8; 32];
    bytes[0] = 0x01;
    bytes[1] = 0xab;
    bytes[31] = 0xf0;
    let s = bytes_to_sha256_string(&bytes).unwrap();
    assert_eq!(
        s,
        "sha256:01ab0000000000000000000000000000000000000000000000000000000000f0"
    );
}

#[test]
fn sha256_string_of_digest_is_certifiable() {
    let s = bytes_to_sha256_string(&[7u8; 32]).unwrap();
    assert!(is_well_formed_hash(&s));
}

#[test]
fn well_formed_hash_shape() {
    let good = "sha256:".to_string() + &"a".repeat(64);
    assert!(is_well_formed_hash(&good));
    assert!(!is_well_formed_hash("not-a-hash"));
    assert!(!is_well_formed_hash(""));
    let short = "sha256:".to_string() + &"a".repeat(63);
    assert!(!is_well_formed_hash(&short));
    let wrong_prefix = "sha512:".to_string() + &"a".repeat(64);
    assert!(!is_well_formed_hash(&wrong_prefix));
    // 71 bytes, but not 64 hex digits.
    let multibyte = "sha256:".to_string() + &"é".repeat(32);
    assert_eq!(multibyte.len(), 71);
    assert!(!is_well_formed_hash(&multibyte));
    let not_hex = "sha256:".to_string() + &"z".repeat(64);
    assert!(!is_well_formed_hash(&not_hex));
    let upper = "sha256:".to_string() + &"A".repeat(64);
    assert!(is_well_formed_hash(&upper));
    let mixed_case = "sha256:0123456789ABCDEFabcdef".to_string() + &"0".repeat(42);
    assert!(is_well_formed_hash(&mixed_case));
    let past_f = "sha256:".to_string() + &"G".repeat(64);
    assert!(!is_well_formed_hash(&past_f));
    let mixed = "sha256:0123456789abcdef".to_string() + &"0".repeat(48);
    assert!(is_well_formed_hash(&mixed));
    let long = "sha256:".to_string() + &"a".repeat(65);
    assert!(!is_well_formed_hash(&long));
}

#[test]
fn hash_key_bytes_are_utf8() {
    let key = HashKey::new("sha256:é");
    assert_eq!(key.to_bytes().into_owned(), "sha256:é".as_bytes().to_vec());
    assert_eq!(key.clone().into_bytes(), "sha256:é".as_bytes().to_vec());
    let back = HashKey::from_bytes(Cow::Owned("sha256:é".as_bytes().to_vec()));
    assert_eq!(back, key);
}

#[test]
fn hash_key_from_invalid_utf8_uses_replacement_character() {
    let key = HashKey::from_bytes(Cow::Borrowed(&[b'a', 0xff, b'b']));
    assert_eq!(key.as_str(), "a\u{fffd}b");
}

#[test]
fn key_order_is_byte_order() {
    assert_eq!(compare_keys("a", "b"), KeyOrder::Less);
    assert_eq!(compare_keys("b", "a"), KeyOrder::Greater);
    assert_eq!(compare_keys("ab", "ab"), KeyOrder::Equal);
    assert_eq!(compare_keys("ab", "abc"), KeyOrder::Less);
    assert_eq!(compare_keys("", "a"), KeyOrder::Less);
    assert_eq!(compare_keys("Z", "a"), KeyOrder::Less);
    assert_eq!(compare_keys("é", "z"), KeyOrder::Greater);
}
