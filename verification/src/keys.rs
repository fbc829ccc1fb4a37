use vstd::prelude::*;

use crate::errors::MagicCapError;
use crate::keystream::{key_from_bytes, zero_nonce, KeystreamCursor};

verus! {

#[verifier::external_type_specification]
#[verifier::external_body]
pub struct ExGetrandomError(getrandom::Error);

/// Relies on `getrandom::fill`: fills the buffer from the operating
/// system's secure entropy source, or reports that the source is
/// unavailable. The bytes are random, so nothing is stated about the value
/// that comes back.
#[verifier::external_body]
fn fill_random(dest: &mut [u8; 16]) -> (r: Result<(), getrandom::Error>) {
    getrandom::fill(dest)
}

/// A fresh, uniformly random 128-bit secret, generated once per session.
/// Fails only when the entropy source is unavailable.
pub fn new_key_bytes() -> (r: Result<[u8; 16], MagicCapError>)
    ensures
        r is Err ==> r->Err_0 == MagicCapError::RandomError,
{
    let mut key_bytes = [0u8; 16];
    match fill_random(&mut key_bytes) {
        Ok(()) => Ok(key_bytes),
        Err(_) => Err(MagicCapError::RandomError),
    }
}

/// A fresh secret together with a cursor for it, positioned at the start
/// of the keystream under the session's zero nonce. Fails only when the
/// entropy source is unavailable.
pub fn new_key() -> (r: Result<(KeystreamCursor, [u8; 16]), MagicCapError>)
    ensures
        r is Ok ==> {
            &&& r->Ok_0.0.key == r->Ok_0.1
            &&& r->Ok_0.0.nonce@ == zero_nonce()
            &&& r->Ok_0.0.pos == 0
        },
        r is Err ==> r->Err_0 == MagicCapError::RandomError,
{
    let key_bytes = match new_key_bytes() {
        Ok(kb) => kb,
        Err(e) => {
            return Err(e);
        },
    };
    let key = key_from_bytes(key_bytes);
    Ok((key, key_bytes))
}

} // verus!
