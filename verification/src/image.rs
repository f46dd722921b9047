//! The layout of a store file: the format version, the salt, the nonce and
//! the ciphertext with its tag, in this order and with nothing between
//! them.

use crate::buffer::{append_bytes, take_array};
use crate::cipher::NONCE_LEN;
use crate::kdf::SALT_LEN;
use vstd::bytes::{
    lemma_auto_spec_u32_to_from_le_bytes, spec_u32_from_le_bytes, spec_u32_to_le_bytes,
    u32_from_le_bytes, u32_to_le_bytes,
};
use vstd::prelude::*;
use vstd::slice::slice_subrange;

verus! {

/// The version of the layout that this library writes and reads.
pub const FORMAT_VERSION: u32 = 1;

/// Length of the version field: a 32-bit number, low byte first.
pub const VERSION_LEN: usize = 4;

/// Where the nonce begins.
pub const NONCE_START: usize = 20;

/// Where the ciphertext begins: the length of what precedes it.
pub const PREAMBLE_LEN: usize = 32;

/// The file that holds a ciphertext with the salt and the nonce it was
/// made with.
pub open spec fn image_bytes(salt: Seq<u8>, nonce: Seq<u8>, ciphertext: Seq<u8>) -> Seq<u8> {
    spec_u32_to_le_bytes(FORMAT_VERSION) + salt + nonce + ciphertext
}

/// Whether the bytes begin with the known version and have room for a salt
/// and a nonce.
pub open spec fn is_image(bytes: Seq<u8>) -> bool {
    bytes.len() >= PREAMBLE_LEN && spec_u32_from_le_bytes(bytes.subrange(0, VERSION_LEN as int))
        == FORMAT_VERSION
}

/// The salt field of a file.
pub open spec fn image_salt(bytes: Seq<u8>) -> Seq<u8> {
    bytes.subrange(VERSION_LEN as int, NONCE_START as int)
}

/// The nonce field of a file.
pub open spec fn image_nonce(bytes: Seq<u8>) -> Seq<u8> {
    bytes.subrange(NONCE_START as int, PREAMBLE_LEN as int)
}

/// The ciphertext field of a file.
pub open spec fn image_ciphertext(bytes: Seq<u8>) -> Seq<u8> {
    bytes.skip(PREAMBLE_LEN as int)
}

/// A file built from its fields is read back as these fields.
pub proof fn lemma_image_fields(salt: Seq<u8>, nonce: Seq<u8>, ciphertext: Seq<u8>)
    requires
        salt.len() == SALT_LEN,
        nonce.len() == NONCE_LEN,
    ensures
        is_image(image_bytes(salt, nonce, ciphertext)),
        image_salt(image_bytes(salt, nonce, ciphertext)) == salt,
        image_nonce(image_bytes(salt, nonce, ciphertext)) == nonce,
        image_ciphertext(image_bytes(salt, nonce, ciphertext)) == ciphertext,
{
    lemma_auto_spec_u32_to_from_le_bytes();
    let version = spec_u32_to_le_bytes(FORMAT_VERSION);
    let bytes = image_bytes(salt, nonce, ciphertext);
    assert(bytes.subrange(0, VERSION_LEN as int) =~= version);
    assert(image_salt(bytes) =~= salt);
    assert(image_nonce(bytes) =~= nonce);
    assert(image_ciphertext(bytes) =~= ciphertext);
}

/// A file that parses is the file built from its fields.
pub proof fn lemma_image_rebuilt(bytes: Seq<u8>)
    requires
        is_image(bytes),
    ensures
        image_bytes(image_salt(bytes), image_nonce(bytes), image_ciphertext(bytes)) == bytes,
{
    lemma_auto_spec_u32_to_from_le_bytes();
    let version = bytes.subrange(0, VERSION_LEN as int);
    assert(spec_u32_to_le_bytes(spec_u32_from_le_bytes(version)) == version);
    assert(image_bytes(image_salt(bytes), image_nonce(bytes), image_ciphertext(bytes)) =~= bytes);
}

/// The fields of a store file.
#[derive(Clone, Debug, PartialEq, Eq)]
pub struct StoreImage {
    pub salt: [u8; SALT_LEN],
    pub nonce: [u8; NONCE_LEN],
    pub ciphertext: Vec<u8>,
}

/// Lays out a store file.
pub fn write_image(salt: &[u8; SALT_LEN], nonce: &[u8; NONCE_LEN], ciphertext: &[u8]) -> (out: Vec<
    u8,
>)
    ensures
        out@ == image_bytes(salt@, nonce@, ciphertext@),
{
    let mut out = u32_to_le_bytes(FORMAT_VERSION);
    append_bytes(&mut out, salt.as_slice());
    append_bytes(&mut out, nonce.as_slice());
    append_bytes(&mut out, ciphertext);
    out
}

/// Takes a store file apart. Returns `None` exactly where the bytes are
/// too short for the fixed fields or begin with another version.
pub fn read_image(bytes: &[u8]) -> (r: Option<StoreImage>)
    ensures
        r is Some <==> is_image(bytes@),
        r matches Some(image) ==> image.salt@ == image_salt(bytes@) && image.nonce@ == image_nonce(
            bytes@,
        ) && image.ciphertext@ == image_ciphertext(bytes@),
        r matches Some(image) ==> image_bytes(image.salt@, image.nonce@, image.ciphertext@)
            == bytes@,
{
    if bytes.len() < PREAMBLE_LEN {
        return None;
    }
    if u32_from_le_bytes(slice_subrange(bytes, 0, VERSION_LEN)) != FORMAT_VERSION {
        return None;
    }
    let salt: [u8; SALT_LEN] = take_array(bytes, VERSION_LEN);
    let nonce: [u8; NONCE_LEN] = take_array(bytes, NONCE_START);
    let mut ciphertext: Vec<u8> = Vec::new();
    append_bytes(&mut ciphertext, slice_subrange(bytes, PREAMBLE_LEN, bytes.len()));
    proof {
        assert(ciphertext@ =~= image_ciphertext(bytes@));
        lemma_image_rebuilt(bytes@);
    }
    Some(StoreImage { salt, nonce, ciphertext })
}

} // verus!
