//! Password-based key derivation with scrypt, a function that is slow and
//! needs much memory on purpose, so that guessing passwords against a
//! stolen store file is expensive.
//!
//! The cost parameters are those that the scrypt paper gives for
//! interactive logins: `N = 2^14`, `r = 8`, `p = 1`, which takes sixteen
//! mebibytes of memory for each derivation.

use vstd::arithmetic::power2::{lemma2_to64, pow2};
use vstd::prelude::*;

verus! {

/// Length of a store's salt in bytes.
pub const SALT_LEN: usize = 16;

/// Length of a derived key in bytes.
pub const KEY_LEN: usize = 32;

/// Base-two logarithm of scrypt's cost parameter `N`.
pub const SCRYPT_LOG_N: u8 = 14;

/// scrypt's block size parameter `r`.
pub const SCRYPT_R: u32 = 8;

/// scrypt's parallelism parameter `p`.
pub const SCRYPT_P: u32 = 1;

/// The 32 bytes that scrypt derives from a password and a salt under the
/// cost parameters `log_n`, `r` and `p`.
pub uninterp spec fn scrypt_output(
    password: Seq<u8>,
    salt: Seq<u8>,
    log_n: u8,
    r: u32,
    p: u32,
) -> Seq<u8>;

/// The cost parameters that `scrypt::Params::new` accepts for a 32-byte key.
pub open spec fn scrypt_accepts(log_n: u8, r: u32, p: u32) -> bool {
    &&& r > 0
    &&& p > 0
    &&& log_n < usize::BITS
    &&& 128 * r * pow2(log_n as nat) <= usize::MAX
    &&& 128 * r * p <= usize::MAX
    &&& log_n < 16 * r
    &&& r * p < 0x4000_0000
}

/// Calls `scrypt::Params::new` and `scrypt::scrypt` with a 32-byte output
/// buffer.
///
/// Trusted: the call succeeds whenever the parameters pass the checks of
/// `Params::new`, and the bytes it writes depend on the password, the salt
/// and the parameters alone.
#[verifier::external_body]
fn scrypt_into_key(password: &[u8], salt: &[u8], log_n: u8, r: u32, p: u32) -> (out: Option<
    [u8; 32],
>)
    ensures
        scrypt_accepts(log_n, r, p) ==> out is Some,
        out matches Some(key) ==> key@ == scrypt_output(password@, salt@, log_n, r, p),
{
    let params = match scrypt::Params::new(log_n, r, p, 32) {
        Ok(params) => params,
        Err(_) => return None,
    };
    let mut key = [0u8; 32];
    match scrypt::scrypt(password, salt, &params, &mut key) {
        Ok(()) => Some(key),
        Err(_) => None,
    }
}

/// The key that belongs to a password and a salt.
pub open spec fn derive_key_spec(password: Seq<u8>, salt: Seq<u8>) -> Seq<u8> {
    scrypt_output(password, salt, SCRYPT_LOG_N, SCRYPT_R, SCRYPT_P)
}

/// The key depends on the password and the salt alone: the same password
/// and salt give the same key, whenever and wherever it is derived.
pub proof fn lemma_derive_key_deterministic(
    password: Seq<u8>,
    salt: Seq<u8>,
    other_password: Seq<u8>,
    other_salt: Seq<u8>,
)
    requires
        password == other_password,
        salt == other_salt,
    ensures
        derive_key_spec(password, salt) == derive_key_spec(other_password, other_salt),
{
}

/// Derives the store key from a password and the store's salt.
///
/// The derivation is memory-hard and succeeds for every password.
pub fn derive_key(password: &[u8], salt: &[u8; SALT_LEN]) -> (key: [u8; KEY_LEN])
    ensures
        key@ == derive_key_spec(password@, salt@),
{
    proof {
        lemma2_to64();
        assert(scrypt_accepts(SCRYPT_LOG_N, SCRYPT_R, SCRYPT_P));
    }
    match scrypt_into_key(password, salt.as_slice(), SCRYPT_LOG_N, SCRYPT_R, SCRYPT_P) {
        Some(key) => key,
        None => vstd::pervasive::unreached(),
    }
}

} // verus!
