use bounded_tables::digest::{digest_bytes, digest_str};
use bounded_tables::error::TableError;
use bounded_tables::keys::{bytes_equal, text_equal};
use std::collections::hash_map::DefaultHasher;
use std::hash::{Hash, Hasher};

#[test]
fn digest_of_bytes_is_that_of_the_default_hasher() {
    for key in [&b"key1"[..], &b""[..], &b"\0"[..], &b"overflow_key"[..]] {
        let mut hasher = DefaultHasher::new();
        key.hash(&mut hasher);
        assert_eq!(digest_bytes(key), hasher.finish());
    }
}

#[test]
fn digest_of_text_is_that_of_the_default_hasher() {
    for key in ["key1", "", "BTC-200730-9000-C"] {
        let mut hasher = DefaultHasher::new();
        key.hash(&mut hasher);
        assert_eq!(digest_str(key), hasher.finish());
    }
}

#[test]
fn digest_depends_on_the_key() {
    let untouched = DefaultHasher::new().finish();
    assert_ne!(digest_bytes(b"key1"), untouched);
    assert_ne!(digest_str("key1"), untouched);
    assert_ne!(digest_bytes(b"key1"), digest_bytes(b"key2"));
    assert_ne!(digest_str("key1"), digest_str("key2"));
    assert_eq!(digest_bytes(b"key1"), digest_bytes(&[b'k', b'e', b'y', b'1']));
    assert_eq!(digest_str("key1"), digest_str(&String::from("key1")));
}

#[test]
fn bytes_are_equal_when_all_bytes_are() {
    assert!(bytes_equal(b"", b""));
    assert!(bytes_equal(b"abc", b"abc"));
    assert!(!bytes_equal(b"abc", b"abd"));
    assert!(!bytes_equal(b"abc", b"ab"));
    assert!(!bytes_equal(b"", b"a"));
    assert!(!bytes_equal(b"xbc", b"abc"));
}

#[test]
fn texts_are_equal_when_all_characters_are() {
    assert!(text_equal("", ""));
    assert!(text_equal("key1", "key1"));
    assert!(!text_equal("key1", "key2"));
    assert!(!text_equal("key1", "key"));
    assert!(text_equal("\u{e9}t\u{e9}", "\u{e9}t\u{e9}"));
    assert!(!text_equal("\u{e9}", "e"));
}

#[test]
fn error_messages() {
    assert_eq!(TableError::Full.message(), "Hash table is full");
    assert_eq!(
        TableError::KeyTooLong.message(),
        "Key length exceeds maximum allowed length"
    );
    assert_ne!(TableError::Full, TableError::KeyTooLong);
}
