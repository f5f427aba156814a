//! The encrypted store: turn an entry collection into the vault file's
//! bytes and back.
//!
//! The vault file is exactly `nonce || ciphertext`: a 12-byte nonce, fresh
//! and random on every write, followed by the AEAD ciphertext (tag included)
//! of the serialized entry collection. There is no header, version tag or
//! magic number. These functions work on the file's bytes; the caller reads
//! and writes the file itself, in one whole-file operation per call, and
//! checks the 32-byte password length before calling.
//!
//! No locking is provided: two processes racing a write lose data
//! last-writer-wins. The store assumes exclusive access for one invocation.

use vstd::prelude::*;
use crate::entry::{Entry, EntryView, views_of};
use crate::codec::{
    serialize, enc_entries, parse, serialize_entries, deserialize_entries, encodable,
    lemma_serialize_parse,
};
use crate::crypto::{
    gcm_ciphertext, gcm_decrypt, aes256_gcm_encrypt, aes256_gcm_decrypt, fresh_nonce,
};
use vstd::slice::slice_subrange;

verus! {

/// Why a store operation failed.
#[derive(Debug, Clone, Copy, PartialEq, Eq, Structural)]
pub enum StoreError {
    /// The AEAD primitive reported an encryption failure. Not reachable in
    /// normal operation; fatal and not retryable.
    Encrypt,
    /// Authentication failed on load: wrong password, or a corrupted or
    /// tampered file. Deliberately ambiguous between the two, as AEAD
    /// conflates them.
    Decrypt,
    /// The password was right but the plaintext is not a valid encoding of
    /// an entry collection.
    Decode,
    /// The user's home directory could not be determined: a fatal
    /// configuration error, not a store error.
    Path,
    /// The vault file is absent. The caller that reads the file reports
    /// this; whether it is fatal or means "empty store" is the caller's
    /// policy choice.
    NotFound,
}

/// `blob` is a well-formed vault file for `es` under `key`: a 12-byte nonce
/// followed by the ciphertext of the serialized collection.
pub open spec fn is_sealed_store(blob: Seq<u8>, key: Seq<u8>, es: Seq<EntryView>) -> bool {
    exists|nonce: Seq<u8>|
        nonce.len() == 12 && blob == nonce + #[trigger] gcm_ciphertext(key, nonce, serialize(es))
}

/// Serialize and encrypt `entries` under `password` with a fresh random
/// nonce; the result is the complete new content of the vault file,
/// replacing any prior content in full. No password check against prior
/// content happens here: writing under a different password re-keys the
/// vault. Writing succeeds whenever the serialized collection is within
/// AES-GCM's plaintext bound; the Encrypt error is unreachable below it.
pub fn write_store(entries: &Vec<Entry>, password: &[u8]) -> (r: Result<Vec<u8>, StoreError>)
    requires
        password@.len() == 32,
    ensures
        r matches Ok(blob) ==> is_sealed_store(blob@, password@, views_of(entries@))
            && encodable(views_of(entries@)) && blob@.len() >= 12,
        r matches Err(e) ==> e == StoreError::Encrypt,
        serialize(views_of(entries@)).len() <= 0xF_FFFF_FFE0 ==> r is Ok,
{
    let pt = serialize_entries(entries);
    let nonce = fresh_nonce();
    let ghost nv = nonce@;
    match aes256_gcm_encrypt(password, nonce.as_slice(), pt.as_slice()) {
        Some(ct) => {
            let mut blob = nonce;
            blob.extend_from_slice(ct.as_slice());
            proof {
                assert(blob@ == nv + gcm_ciphertext(password@, nv, serialize(views_of(entries@))));
            }
            Ok(blob)
        },
        None => Err(StoreError::Encrypt),
    }
}

/// Split a `nonce || ciphertext` byte sequence at the fixed nonce length.
proof fn lemma_split_blob(b: Seq<u8>, x: Seq<u8>, y: Seq<u8>)
    requires
        x.len() == 12,
        b == x + y,
    ensures
        b.len() == 12 + y.len(),
        b.subrange(0, 12) == x,
        b.subrange(12, b.len() as int) == y,
{
    assert(b.subrange(0, 12) =~= x);
    assert(b.subrange(12, b.len() as int) =~= y);
}

/// Decrypt and decode a vault file's bytes under `password`.
///
/// The first 12 bytes are the nonce, the rest the ciphertext. `Decrypt`
/// reports an authentication failure (wrong password or tampered bytes,
/// indistinguishable by design); `Decode` a plaintext that authenticated but
/// is not an encoding of an entry collection. The last clause of the
/// contract is the round trip: a file sealed from a collection under this
/// password always loads back as exactly that collection, field for field
/// and in order.
pub fn load_store(blob: &[u8], password: &[u8]) -> (r: Result<Vec<Entry>, StoreError>)
    requires
        password@.len() == 32,
    ensures
        blob@.len() < 12 ==> r == Err::<Vec<Entry>, StoreError>(StoreError::Decrypt),
        blob@.len() >= 12 ==> (match gcm_decrypt(
            password@,
            blob@.subrange(0, 12),
            blob@.subrange(12, blob@.len() as int),
        ) {
            Some(pt) => match parse(pt) {
                Some(es) => r matches Ok(v) && views_of(v@) == es,
                None => r == Err::<Vec<Entry>, StoreError>(StoreError::Decode),
            },
            None => r == Err::<Vec<Entry>, StoreError>(StoreError::Decrypt),
        }),
        forall|es: Seq<EntryView>, nonce: Seq<u8>|
            encodable(es) && nonce.len() == 12 && blob@ == nonce + #[trigger] gcm_ciphertext(
                password@,
                nonce,
                serialize(es),
            ) ==> (r matches Ok(v) && views_of(v@) == es),
{
    if blob.len() < 12 {
        proof {
            assert forall|es: Seq<EntryView>, nonce: Seq<u8>|
                encodable(es) && nonce.len() == 12 && blob@ == nonce + #[trigger] gcm_ciphertext(
                    password@,
                    nonce,
                    serialize(es),
                ) implies false by {
                lemma_split_blob(blob@, nonce, gcm_ciphertext(password@, nonce, serialize(es)));
            }
        }
        return Err(StoreError::Decrypt);
    }
    let nonce = slice_subrange(blob, 0, 12);
    let ct = slice_subrange(blob, 12, blob.len());
    match aes256_gcm_decrypt(password, nonce, ct) {
        Some(pt) => {
            match deserialize_entries(pt.as_slice()) {
                Some(v) => {
                    proof {
                        assert forall|es: Seq<EntryView>, nonce2: Seq<u8>|
                            encodable(es) && nonce2.len() == 12 && blob@ == nonce2
                                + #[trigger] gcm_ciphertext(
                                password@,
                                nonce2,
                                serialize(es),
                            ) implies views_of(v@) == es by {
                            lemma_split_blob(
                                blob@,
                                nonce2,
                                gcm_ciphertext(password@, nonce2, serialize(es)),
                            );
                            assert(pt@ == serialize(es));
                            lemma_serialize_parse(es);
                        }
                    }
                    Ok(v)
                },
                None => {
                    proof {
                        assert forall|es: Seq<EntryView>, nonce2: Seq<u8>|
                            encodable(es) && nonce2.len() == 12 && blob@ == nonce2
                                + #[trigger] gcm_ciphertext(
                                password@,
                                nonce2,
                                serialize(es),
                            ) implies false by {
                            lemma_split_blob(
                                blob@,
                                nonce2,
                                gcm_ciphertext(password@, nonce2, serialize(es)),
                            );
                            assert(pt@ == serialize(es));
                            lemma_serialize_parse(es);
                        }
                    }
                    Err(StoreError::Decode)
                },
            }
        },
        None => {
            proof {
                assert forall|es: Seq<EntryView>, nonce2: Seq<u8>|
                    encodable(es) && nonce2.len() == 12 && blob@ == nonce2
                        + #[trigger] gcm_ciphertext(password@, nonce2, serialize(es)) implies false by {
                    lemma_split_blob(blob@, nonce2, gcm_ciphertext(password@, nonce2, serialize(es)));
                }
            }
            Err(StoreError::Decrypt)
        },
    }
}

/// The outcome of an initialize request.
pub enum InitOutcome {
    /// No vault existed: these bytes are the complete content of the new
    /// vault file, an empty collection sealed under the given password.
    Created(Vec<u8>),
    /// A vault file is already present: nothing may be written, the existing
    /// content stays as it is.
    AlreadyExists,
}

/// Decide an initialize request given whether the vault file is already
/// present. Initialization is idempotent and non-destructive: when a vault
/// exists the answer is `AlreadyExists` and no file content is produced, so
/// the content written by the first initialization stays intact. When no
/// vault exists, creation always succeeds: an empty collection's plaintext
/// is far below the encryption length bound.
pub fn initialize(store_present: bool, password: &[u8]) -> (r: Result<InitOutcome, StoreError>)
    requires
        password@.len() == 32,
    ensures
        store_present ==> r == Ok::<InitOutcome, StoreError>(InitOutcome::AlreadyExists),
        !store_present ==> (r matches Ok(outcome) && outcome matches InitOutcome::Created(blob)
            && is_sealed_store(blob@, password@, Seq::empty())),
{
    if store_present {
        return Ok(InitOutcome::AlreadyExists);
    }
    let empty: Vec<Entry> = Vec::new();
    proof {
        vstd::bytes::lemma_auto_spec_u64_to_from_le_bytes();
        assert(views_of(empty@) =~= Seq::<EntryView>::empty());
        assert(enc_entries(views_of(empty@)) == Seq::<u8>::empty());
        assert(serialize(views_of(empty@)).len() == 8);
    }
    match write_store(&empty, password) {
        Ok(blob) => Ok(InitOutcome::Created(blob)),
        Err(e) => Err(e),
    }
}

/// Two vault files written with distinct nonces are distinct byte
/// sequences, whatever their ciphertexts: the nonce is the file's 12-byte
/// prefix.
pub proof fn lemma_distinct_nonce_distinct_blob(n1: Seq<u8>, c1: Seq<u8>, n2: Seq<u8>, c2: Seq<u8>)
    requires
        n1.len() == 12,
        n2.len() == 12,
        n1 != n2,
    ensures
        n1 + c1 != n2 + c2,
{
    assert(exists|k: int| 0 <= k < 12 && n1[k] != n2[k]) by {
        if forall|k: int| 0 <= k < 12 ==> n1[k] == n2[k] {
            assert(n1 =~= n2);
        }
    }
    let k = choose|k: int| 0 <= k < 12 && n1[k] != n2[k];
    assert((n1 + c1)[k] == n1[k]);
    assert((n2 + c2)[k] == n2[k]);
}

/// Relies on home::home_dir: the user's home directory, if the environment
/// provides one; nothing is assumed of the value.
#[verifier::external_body]
fn home_dir() -> Option<std::path::PathBuf> {
    home::home_dir()
}

/// Relies on std::path::Path::join: appends one file name to a directory
/// path; nothing is assumed of the value.
#[verifier::external_body]
fn join_path(dir: std::path::PathBuf, name: &str) -> std::path::PathBuf {
    dir.join(name)
}

/// Relies on std::path::Path::exists: asks the filesystem whether the path
/// points at anything; nothing is assumed of the outcome.
#[verifier::external_body]
fn path_exists(p: &std::path::PathBuf) -> bool {
    p.exists()
}

/// Declares std::path::PathBuf so store paths can stand in signatures; its
/// values are opaque to the verifier.
#[verifier::external_type_specification]
#[verifier::external_body]
pub struct ExPathBuf(std::path::PathBuf);

/// The fixed name of the vault file, a dotfile in the home directory.
pub fn store_file_name() -> (r: &'static str)
    ensures
        r@ == ".ppa.bin"@,
{
    ".ppa.bin"
}

/// The fixed on-disk location of the vault: the dotfile in the user's home
/// directory. Fails only when no home directory can be determined, a fatal
/// configuration error.
pub fn path_to_store() -> (r: Result<std::path::PathBuf, StoreError>)
    ensures
        r matches Err(e) ==> e == StoreError::Path,
{
    match home_dir() {
        Some(dir) => Ok(join_path(dir, store_file_name())),
        None => Err(StoreError::Path),
    }
}

/// Whether the vault file is present at its resolved path. Side-effect
/// free; fails only when the path itself cannot be resolved.
pub fn store_exists() -> (r: Result<bool, StoreError>)
    ensures
        r matches Err(e) ==> e == StoreError::Path,
{
    match path_to_store() {
        Ok(p) => Ok(path_exists(&p)),
        Err(e) => Err(e),
    }
}

} // verus!
