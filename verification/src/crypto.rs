//! The trusted boundary around the AEAD primitive and the nonce source.
//!
//! The password's raw bytes are used directly as the 256-bit key (no key
//! stretching; kept for file-format compatibility, though it means brute
//! force scales with password entropy alone). Encryption and decryption are
//! deterministic functions of key, nonce and message, named here by
//! uninterpreted spec functions; the nonce source is random and nothing is
//! assumed of its values beyond the length.

use vstd::prelude::*;
use aes_gcm::aead::Aead;
use aes_gcm::KeyInit;
use rand::Rng;

verus! {

/// The AES-256-GCM ciphertext (authentication tag appended) of `plaintext`
/// under `key` and `nonce`.
pub uninterp spec fn gcm_ciphertext(key: Seq<u8>, nonce: Seq<u8>, plaintext: Seq<u8>) -> Seq<u8>;

/// What AES-256-GCM decryption returns for `ciphertext` under `key` and
/// `nonce`: the authenticated plaintext, or `None` when the tag does not
/// verify.
pub uninterp spec fn gcm_decrypt(key: Seq<u8>, nonce: Seq<u8>, ciphertext: Seq<u8>) -> Option<
    Seq<u8>,
>;

/// Relies on aes_gcm::Aes256Gcm through aead::Aead::encrypt: AES-256-GCM
/// encryption is a deterministic function of key, nonce and plaintext, and
/// the returned ciphertext carries the authentication tag. It fails only
/// when the plaintext exceeds the mode's length bound of 2^36 - 32 bytes.
#[verifier::external_body]
pub(crate) fn aes256_gcm_encrypt(key: &[u8], nonce: &[u8], plaintext: &[u8]) -> (r: Option<Vec<u8>>)
    requires
        key@.len() == 32,
        nonce@.len() == 12,
    ensures
        r matches Some(ct) ==> ct@ == gcm_ciphertext(key@, nonce@, plaintext@),
        plaintext@.len() <= 0xF_FFFF_FFE0 ==> r is Some,
{
    let cipher = match aes_gcm::Aes256Gcm::new_from_slice(key) {
        Ok(c) => c,
        Err(_) => return None,
    };
    let nonce_arr: [u8; 12] = match nonce.try_into() {
        Ok(a) => a,
        Err(_) => return None,
    };
    cipher.encrypt(&aes_gcm::Nonce::from(nonce_arr), plaintext).ok()
}

/// Relies on aes_gcm::Aes256Gcm through aead::Aead::decrypt: decryption is a
/// deterministic function of key, nonce and ciphertext; it fails exactly
/// when the authentication tag does not verify, and on the ciphertext that
/// an encryption under the same key and nonce produced it returns that
/// encryption's plaintext.
#[verifier::external_body]
pub(crate) fn aes256_gcm_decrypt(key: &[u8], nonce: &[u8], ciphertext: &[u8]) -> (r: Option<Vec<u8>>)
    requires
        key@.len() == 32,
        nonce@.len() == 12,
    ensures
        (r is Some) == (gcm_decrypt(key@, nonce@, ciphertext@) is Some),
        r matches Some(p) ==> gcm_decrypt(key@, nonce@, ciphertext@) == Some(p@),
        r is None ==> (forall|p: Seq<u8>| ciphertext@ != #[trigger] gcm_ciphertext(key@, nonce@, p)),
        r matches Some(q) ==> (forall|p: Seq<u8>|
            ciphertext@ == #[trigger] gcm_ciphertext(key@, nonce@, p) ==> q@ == p),
{
    let cipher = match aes_gcm::Aes256Gcm::new_from_slice(key) {
        Ok(c) => c,
        Err(_) => return None,
    };
    let nonce_arr: [u8; 12] = match nonce.try_into() {
        Ok(a) => a,
        Err(_) => return None,
    };
    cipher.decrypt(&aes_gcm::Nonce::from(nonce_arr), ciphertext).ok()
}

/// Relies on rand::thread_rng with Rng::gen: 12 bytes from the thread-local
/// CSPRNG. Nothing is assumed of their values; every byte sequence of this
/// length is a possible outcome.
#[verifier::external_body]
pub(crate) fn fresh_nonce() -> (r: Vec<u8>)
    ensures
        r@.len() == 12,
{
    let bytes: [u8; 12] = rand::thread_rng().gen();
    bytes.to_vec()
}

} // verus!
