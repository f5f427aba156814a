//! Tests of the plaintext codec and the case-insensitive name lookup, and
//! the decode error path through the store.

use aes_gcm::aead::Aead;
use aes_gcm::KeyInit;
use ppa::codec::{deserialize_entries, serialize_entries};
use ppa::entry::{find_entry, remove_entries, Entry};
use ppa::store::{load_store, StoreError};

const PW: &[u8] = b"aaaaaaaaaaaaaaaaaaaaaaaaaaaaaaaa";

fn entry(name: &str, username: &str, password: &str, comments: &str) -> Entry {
    Entry::new(
        name.to_string(),
        username.to_string(),
        password.to_string(),
        comments.to_string(),
    )
}

#[test]
fn codec_round_trip_exact_bytes() {
    let entries = vec![entry("a", "b", "c", "d")];
    let bytes = serialize_entries(&entries);
    // count = 1 (8 bytes), then four fields of one ASCII byte each,
    // each with an 8-byte length prefix.
    let mut expected: Vec<u8> = vec![1, 0, 0, 0, 0, 0, 0, 0];
    for field in [b'a', b'b', b'c', b'd'] {
        expected.extend_from_slice(&[1, 0, 0, 0, 0, 0, 0, 0]);
        expected.push(field);
    }
    assert_eq!(bytes, expected);
    let back = deserialize_entries(&bytes).unwrap();
    assert_eq!(back.len(), 1);
    assert_eq!(back[0].name, "a");
}

#[test]
fn codec_empty_collection() {
    let entries: Vec<Entry> = vec![];
    let bytes = serialize_entries(&entries);
    assert_eq!(bytes, vec![0u8; 8]);
    let back = deserialize_entries(&bytes).unwrap();
    assert_eq!(back.len(), 0);
}

#[test]
fn codec_rejects_malformed_input() {
    // Too short for a count.
    assert!(deserialize_entries(&[1, 2, 3]).is_none());
    // Count claims one entry but no fields follow.
    assert!(deserialize_entries(&[1, 0, 0, 0, 0, 0, 0, 0]).is_none());
    // Trailing garbage after a valid empty collection.
    assert!(deserialize_entries(&[0, 0, 0, 0, 0, 0, 0, 0, 9]).is_none());
    // A field that is not valid UTF-8.
    let mut bad: Vec<u8> = vec![1, 0, 0, 0, 0, 0, 0, 0];
    for _ in 0..4 {
        bad.extend_from_slice(&[1, 0, 0, 0, 0, 0, 0, 0]);
        bad.push(0xff);
    }
    assert!(deserialize_entries(&bad).is_none());
}

#[test]
fn codec_preserves_unicode() {
    let entries = vec![entry("Ünïcødé ✓", "名前", "пароль", "🔐 comment")];
    let back = deserialize_entries(&serialize_entries(&entries)).unwrap();
    assert_eq!(back[0].name, "Ünïcødé ✓");
    assert_eq!(back[0].username, "名前");
    assert_eq!(back[0].password, "пароль");
    assert_eq!(back[0].comments, "🔐 comment");
}

#[test]
fn authenticated_garbage_is_a_decode_error() {
    // A well-formed vault file whose plaintext is not an encoding of an
    // entry collection: the password is right, the structure is not.
    let cipher = aes_gcm::Aes256Gcm::new_from_slice(PW).unwrap();
    let nonce = [7u8; 12];
    let ct = cipher
        .encrypt(&aes_gcm::Nonce::from(nonce), &b"not an entry encoding"[..])
        .unwrap();
    let mut blob = nonce.to_vec();
    blob.extend_from_slice(&ct);
    let r = load_store(&blob, PW);
    assert!(matches!(r, Err(StoreError::Decode)));
}

#[test]
fn lookup_is_case_insensitive() {
    let entries = vec![
        entry("Example", "u1", "p1", ""),
        entry("EXAMPLE", "u2", "p2", ""),
        entry("example", "u3", "p3", ""),
        entry("other", "u4", "p4", ""),
    ];
    let found = find_entry(&entries, "example");
    assert_eq!(found, Some(0));
    let found = find_entry(&entries, "eXaMpLe");
    assert_eq!(found, Some(0));
    let found = find_entry(&entries, "OTHER");
    assert_eq!(found, Some(3));
    assert_eq!(find_entry(&entries, "missing"), None);
}

#[test]
fn removal_removes_all_case_insensitive_matches() {
    let entries = vec![
        entry("Example", "u1", "p1", ""),
        entry("other", "u4", "p4", ""),
        entry("EXAMPLE", "u2", "p2", ""),
        entry("example", "u3", "p3", ""),
    ];
    let remaining = remove_entries(&entries, "example");
    assert_eq!(remaining.len(), 1);
    assert_eq!(remaining[0].name, "other");
    let untouched = remove_entries(&entries, "missing");
    assert_eq!(untouched.len(), 4);
}

#[test]
fn store_file_name_is_fixed() {
    assert_eq!(ppa::store::store_file_name(), ".ppa.bin");
}

#[test]
fn password_length_check() {
    assert!(ppa::password_ok(&[b'x'; 32]));
    assert!(!ppa::password_ok(&[b'x'; 31]));
    assert!(!ppa::password_ok(b""));
}
