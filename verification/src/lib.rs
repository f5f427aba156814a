//! An encrypted credential store: a list of named site/username/password
//! records, serialized to a byte encoding and protected at rest by
//! AES-256-GCM under a password-derived key. The on-disk format is
//! `nonce || ciphertext`, with a fresh 12-byte nonce on every write.

use vstd::prelude::*;

pub mod codec;
pub mod crypto;
pub mod entry;
pub mod store;

verus! {

/// True exactly when `password` has the length required of the raw key
/// material: AES-256-GCM takes a 256-bit key, so 32 bytes.
pub fn password_ok(password: &[u8]) -> (r: bool)
    ensures
        r == (password@.len() == 32),
{
    password.len() == 32
}

} // verus!
