//! Authenticated encryption with AES-256-GCM, and the source of fresh
//! salts and nonces.

use crate::kdf::{KEY_LEN, SALT_LEN};
use aes_gcm::aead::rand_core::RngCore;
use aes_gcm::aead::{Aead, KeyInit, OsRng};
use aes_gcm::{Aes256Gcm, Key, Nonce};
use vstd::prelude::*;

verus! {

/// Length of a nonce in bytes.
pub const NONCE_LEN: usize = 12;

/// Length of the authentication tag that ends a ciphertext.
pub const TAG_LEN: usize = 16;

/// The longest plaintext that AES-GCM encrypts, in bytes.
pub const MAX_PLAINTEXT_LEN: u64 = 0x10_0000_0000;

/// The ciphertext with its tag that AES-256-GCM gives for a plaintext
/// under a key and a nonce, without associated data.
pub uninterp spec fn aes256gcm_sealed(key: Seq<u8>, nonce: Seq<u8>, plaintext: Seq<u8>) -> Seq<u8>;

/// The plaintext that AES-256-GCM releases for a ciphertext under a key
/// and a nonce, or `None` where the tag does not verify.
pub uninterp spec fn aes256gcm_opened(key: Seq<u8>, nonce: Seq<u8>, ciphertext: Seq<u8>) -> Option<
    Seq<u8>,
>;

/// Calls `Aes256Gcm::new` and `Aead::encrypt`.
///
/// Trusted: the call succeeds on every plaintext of at most
/// `MAX_PLAINTEXT_LEN` bytes; what it returns depends on the key, the
/// nonce and the plaintext alone, is as long as the plaintext and the tag
/// together, and is opened by `Aead::decrypt` under the same key and nonce
/// to the plaintext.
#[verifier::external_body]
fn aes256gcm_encrypt(key: &[u8; 32], nonce: &[u8; 12], plaintext: &[u8]) -> (out: Option<Vec<u8>>)
    ensures
        plaintext@.len() <= MAX_PLAINTEXT_LEN ==> out is Some,
        out matches Some(sealed) ==> sealed@ == aes256gcm_sealed(key@, nonce@, plaintext@),
        out matches Some(sealed) ==> sealed@.len() == plaintext@.len() + TAG_LEN,
        out matches Some(sealed) ==> aes256gcm_opened(key@, nonce@, sealed@) == Some(plaintext@),
{
    let cipher = Aes256Gcm::new(Key::<Aes256Gcm>::from_slice(key));
    match cipher.encrypt(Nonce::from_slice(nonce), plaintext) {
        Ok(sealed) => Some(sealed),
        Err(_) => None,
    }
}

/// Calls `Aes256Gcm::new` and `Aead::decrypt`.
///
/// Trusted: what the call returns depends on the key, the nonce and the
/// ciphertext alone.
#[verifier::external_body]
fn aes256gcm_decrypt(key: &[u8; 32], nonce: &[u8; 12], ciphertext: &[u8]) -> (out: Option<Vec<u8>>)
    ensures
        match out {
            Some(plaintext) => aes256gcm_opened(key@, nonce@, ciphertext@) == Some(plaintext@),
            None => aes256gcm_opened(key@, nonce@, ciphertext@) is None,
        },
{
    let cipher = Aes256Gcm::new(Key::<Aes256Gcm>::from_slice(key));
    match cipher.decrypt(Nonce::from_slice(nonce), ciphertext) {
        Ok(plaintext) => Some(plaintext),
        Err(_) => None,
    }
}

/// Calls `OsRng.try_fill_bytes` on a buffer of `N` bytes.
///
/// Trusted: nothing. The bytes come from the operating system, and the
/// call may fail.
#[verifier::external_body]
fn os_random_bytes<const N: usize>() -> (out: Option<[u8; N]>) {
    let mut bytes = [0u8; N];
    match OsRng.try_fill_bytes(&mut bytes) {
        Ok(()) => Some(bytes),
        Err(_) => None,
    }
}

/// The failure of decryption: the tag does not verify, so the key is wrong
/// or the ciphertext was changed. No plaintext is released.
#[derive(Clone, Copy, Debug, PartialEq, Eq, Structural)]
pub struct AuthenticationFailure;

/// Encrypts a plaintext under a key and a nonce. The result is the
/// ciphertext followed by its tag, and `decrypt` opens it under the same
/// key and nonce to the plaintext.
///
/// Returns `None` exactly for a plaintext longer than the cipher takes.
/// The nonce must be fresh for every call under one key.
pub fn encrypt(key: &[u8; KEY_LEN], nonce: &[u8; NONCE_LEN], plaintext: &[u8]) -> (r: Option<
    Vec<u8>,
>)
    ensures
        r is Some <==> plaintext@.len() <= MAX_PLAINTEXT_LEN,
        r matches Some(sealed) ==> sealed@ == aes256gcm_sealed(key@, nonce@, plaintext@),
        r matches Some(sealed) ==> sealed@.len() == plaintext@.len() + TAG_LEN,
        r matches Some(sealed) ==> aes256gcm_opened(key@, nonce@, sealed@) == Some(plaintext@),
{
    if plaintext.len() as u64 > MAX_PLAINTEXT_LEN {
        return None;
    }
    aes256gcm_encrypt(key, nonce, plaintext)
}

/// Decrypts a ciphertext with its tag under a key and a nonce.
///
/// Fails closed: where the tag does not verify, the result is
/// `AuthenticationFailure` and nothing else.
pub fn decrypt(key: &[u8; KEY_LEN], nonce: &[u8; NONCE_LEN], ciphertext: &[u8]) -> (r: Result<
    Vec<u8>,
    AuthenticationFailure,
>)
    ensures
        match r {
            Ok(plaintext) => aes256gcm_opened(key@, nonce@, ciphertext@) == Some(plaintext@),
            Err(_) => aes256gcm_opened(key@, nonce@, ciphertext@) is None,
        },
{
    match aes256gcm_decrypt(key, nonce, ciphertext) {
        Some(plaintext) => Ok(plaintext),
        None => Err(AuthenticationFailure),
    }
}

/// A fresh random nonce, or `None` where the operating system gives none.
pub fn fresh_nonce() -> Option<[u8; NONCE_LEN]> {
    os_random_bytes::<NONCE_LEN>()
}

/// A fresh random salt, or `None` where the operating system gives none.
pub fn fresh_salt() -> Option<[u8; SALT_LEN]> {
    os_random_bytes::<SALT_LEN>()
}

} // verus!
