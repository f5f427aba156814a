//! End-to-end tests of the encrypted store: round trips, wrong-key and
//! tamper rejection, nonce freshness, initialization, and error cases.

use ppa::entry::Entry;
use ppa::store::{initialize, load_store, write_store, InitOutcome, StoreError};

const PW: &[u8] = b"aaaaaaaaaaaaaaaaaaaaaaaaaaaaaaaa";
const PW2: &[u8] = b"bbbbbbbbbbbbbbbbbbbbbbbbbbbbbbbb";

fn entry(name: &str, username: &str, password: &str, comments: &str) -> Entry {
    Entry::new(
        name.to_string(),
        username.to_string(),
        password.to_string(),
        comments.to_string(),
    )
}

fn assert_entries_eq(a: &[Entry], b: &[Entry]) {
    assert_eq!(a.len(), b.len());
    for (x, y) in a.iter().zip(b.iter()) {
        assert_eq!(x.name, y.name);
        assert_eq!(x.username, y.username);
        assert_eq!(x.password, y.password);
        assert_eq!(x.comments, y.comments);
    }
}

#[test]
fn round_trip_empty() {
    let entries: Vec<Entry> = vec![];
    let blob = write_store(&entries, PW).unwrap();
    assert!(blob.len() >= 12);
    let loaded = load_store(&blob, PW).unwrap();
    assert_eq!(loaded.len(), 0);
}

#[test]
fn round_trip_preserves_fields_and_order() {
    let entries = vec![
        entry("github", "alice", "s3cr3t", ""),
        entry("Ünïcødé ✓ site", "bob;DROP TABLE", "p@ss\tword\nline", "  spaced  "),
        entry("github", "carol", "dup-name", "duplicate names are permitted"),
    ];
    let blob = write_store(&entries, PW).unwrap();
    let loaded = load_store(&blob, PW).unwrap();
    assert_entries_eq(&loaded, &entries);
}

#[test]
fn wrong_key_rejected() {
    let entries = vec![entry("github", "alice", "s3cr3t", "")];
    let blob = write_store(&entries, PW).unwrap();
    let r = load_store(&blob, PW2);
    assert!(matches!(r, Err(StoreError::Decrypt)));
}

#[test]
fn tamper_detected_on_every_ciphertext_byte() {
    let entries = vec![entry("github", "alice", "s3cr3t", "")];
    let blob = write_store(&entries, PW).unwrap();
    for i in 12..blob.len() {
        let mut bad = blob.clone();
        bad[i] ^= 0x01;
        let r = load_store(&bad, PW);
        assert!(
            matches!(r, Err(StoreError::Decrypt)),
            "flipping ciphertext byte {} was not rejected",
            i
        );
    }
}

#[test]
fn truncated_file_rejected() {
    let entries = vec![entry("github", "alice", "s3cr3t", "")];
    let blob = write_store(&entries, PW).unwrap();
    let r = load_store(&blob[..11], PW);
    assert!(matches!(r, Err(StoreError::Decrypt)));
    let r = load_store(&[], PW);
    assert!(matches!(r, Err(StoreError::Decrypt)));
}

#[test]
fn nonce_differs_between_saves() {
    let entries = vec![entry("github", "alice", "s3cr3t", "")];
    let blob1 = write_store(&entries, PW).unwrap();
    let blob2 = write_store(&entries, PW).unwrap();
    assert_ne!(blob1, blob2);
    assert_ne!(&blob1[..12], &blob2[..12]);
    let l1 = load_store(&blob1, PW).unwrap();
    let l2 = load_store(&blob2, PW).unwrap();
    assert_entries_eq(&l1, &entries);
    assert_entries_eq(&l2, &entries);
}

#[test]
fn ciphertext_is_not_the_plaintext() {
    let entries = vec![entry("github", "alice", "s3cr3t", "")];
    let pt = ppa::codec::serialize_entries(&entries);
    let blob = write_store(&entries, PW).unwrap();
    assert_ne!(&blob[12..], &pt[..]);
}

#[test]
fn initialize_creates_empty_store() {
    let r = initialize(false, PW).unwrap();
    match r {
        InitOutcome::Created(blob) => {
            let loaded = load_store(&blob, PW).unwrap();
            assert_eq!(loaded.len(), 0);
        }
        InitOutcome::AlreadyExists => panic!("expected a created store"),
    }
}

#[test]
fn initialize_is_idempotent() {
    // First call on an absent store creates the file content.
    let first = initialize(false, PW).unwrap();
    let file = match first {
        InitOutcome::Created(blob) => blob,
        InitOutcome::AlreadyExists => panic!("expected a created store"),
    };
    // Second call sees the store present: no new content, the first write
    // stays intact.
    let second = initialize(true, PW).unwrap();
    assert!(matches!(second, InitOutcome::AlreadyExists));
    let loaded = load_store(&file, PW).unwrap();
    assert_eq!(loaded.len(), 0);
}

#[test]
fn save_with_other_password_rekeys() {
    let entries = vec![entry("github", "alice", "s3cr3t", "")];
    let blob = write_store(&entries, PW).unwrap();
    let loaded = load_store(&blob, PW).unwrap();
    let reblob = write_store(&loaded, PW2).unwrap();
    assert!(matches!(load_store(&reblob, PW), Err(StoreError::Decrypt)));
    assert_entries_eq(&load_store(&reblob, PW2).unwrap(), &entries);
}

#[test]
fn scenario_init_add_remove() {
    let pw: &[u8] = b"aaaaaaaaaaaaaaaaaaaaaaaaaaaaaaaa";
    assert_eq!(pw.len(), 32);
    assert!(ppa::password_ok(pw));

    let created = initialize(false, pw).unwrap();
    let file = match created {
        InitOutcome::Created(blob) => blob,
        InitOutcome::AlreadyExists => panic!("expected a created store"),
    };
    let loaded = load_store(&file, pw).unwrap();
    assert_eq!(loaded.len(), 0);

    let mut entries = loaded;
    entries.push(entry("github", "alice", "s3cr3t", ""));
    let file = write_store(&entries, pw).unwrap();
    let loaded = load_store(&file, pw).unwrap();
    assert_eq!(loaded.len(), 1);
    assert_eq!(loaded[0].name, "github");
    assert_eq!(loaded[0].username, "alice");
    assert_eq!(loaded[0].password, "s3cr3t");
    assert_eq!(loaded[0].comments, "");

    let remaining = ppa::entry::remove_entries(&loaded, "GitHub");
    assert_eq!(remaining.len(), 0);
    let file = write_store(&remaining, pw).unwrap();
    let loaded = load_store(&file, pw).unwrap();
    assert_eq!(loaded.len(), 0);
}
