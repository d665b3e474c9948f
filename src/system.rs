//! Randomness and the system clock.
use vstd::prelude::*;
use argon2::password_hash::rand_core::RngCore;

verus! {

/// Relies on `uuid::Uuid::new_v4`: a random identifier.
#[verifier::external_body]
pub(crate) fn random_id() -> (r: u128) {
    uuid::Uuid::new_v4().as_u128()
}

/// Relies on the operating system generator that `argon2` re-exports
/// (`OsRng::fill_bytes`): 32 random bytes.
#[verifier::external_body]
pub(crate) fn random_bytes_32() -> (r: Vec<u8>)
    ensures
        r@.len() == 32,
{
    let mut b = [0u8; 32];
    argon2::password_hash::rand_core::OsRng.fill_bytes(&mut b);
    b.to_vec()
}

/// Relies on `chrono::Utc::now`: microseconds since the Unix epoch. The value
/// depends on the moment of the call.
#[verifier::external_body]
pub(crate) fn now_micros() -> (r: i64) {
    chrono::Utc::now().timestamp_micros()
}

} // verus!
