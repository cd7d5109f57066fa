//! The cryptographic primitives, each behind one trusted function.
//!
//! What a primitive computes has a name here and no definition: the rest of
//! the library is stated over these names.
use vstd::prelude::*;

use chacha20::cipher::{KeyIvInit, StreamCipher};
use hmac::Mac;

verus! {

/// The longest text, in bytes, that one key stream covers: the cipher numbers
/// its blocks of 64 bytes with 32 bits.
pub const MAX_TEXT_LEN: u64 = 274877906880;

/// The longest output, in bytes, of one key derivation: 255 hash lengths.
pub const MAX_DERIVED_LEN: usize = 8160;

/// The `len` bytes that HKDF with HMAC-SHA256 derives from input key material,
/// a salt and an info string.
pub uninterp spec fn hkdf_sha256(salt: Seq<u8>, ikm: Seq<u8>, info: Seq<u8>, len: nat) -> Seq<u8>;

/// The HMAC-SHA256 code of a message under a key.
pub uninterp spec fn hmac_sha256(key: Seq<u8>, msg: Seq<u8>) -> Seq<u8>;

/// Byte `i` of the ChaCha20 key stream for a key and an eight byte nonce.
pub uninterp spec fn chacha20_stream(key: Seq<u8>, nonce: Seq<u8>, i: int) -> u8;

/// The X25519 function: the scalar `k` applied to the u-coordinate `u`.
pub uninterp spec fn x25519(k: Seq<u8>, u: Seq<u8>) -> Seq<u8>;

/// The u-coordinate of the X25519 base point.
pub open spec fn base_point() -> Seq<u8> {
    Seq::new(32, |i: int| if i == 0 { 9u8 } else { 0u8 })
}

/// Calls `hkdf::Hkdf::<Sha256>::new` and `expand`.
///
/// Claimed: the output has the length that was asked for and is a function of
/// salt, input key material, info and that length. `expand` refuses outputs
/// over 255 hash lengths, which are left out.
#[verifier::external_body]
pub(crate) fn hkdf(salt: &[u8], ikm: &[u8], info: &[u8], len: usize) -> (okm: Vec<u8>)
    requires
        len <= MAX_DERIVED_LEN,
    ensures
        okm@ == hkdf_sha256(salt@, ikm@, info@, len as nat),
        okm@.len() == len,
{
    let mut okm = vec![0u8; len];
    hkdf::Hkdf::<sha2::Sha256>::new(Some(salt), ikm).expand(info, &mut okm).unwrap();
    okm
}

/// Calls `hmac::Hmac::<Sha256>` to compute an authentication code.
///
/// Claimed: the code is a function of key and message.
#[verifier::external_body]
pub(crate) fn hmac(key: &[u8; 32], msg: &[u8]) -> (code: [u8; 32])
    ensures
        code@ == hmac_sha256(key@, msg@),
{
    let mut mac = hmac::Hmac::<sha2::Sha256>::new_from_slice(key).unwrap();
    mac.update(msg);
    mac.finalize().into_bytes().into()
}

/// Calls `hmac::Mac::verify_slice`, which compares in constant time.
///
/// Claimed: it accepts exactly the code that [`hmac`] computes for the same
/// key and message.
#[verifier::external_body]
pub(crate) fn hmac_verify(key: &[u8; 32], msg: &[u8], code: &[u8; 32]) -> (ok: bool)
    ensures
        ok == (code@ == hmac_sha256(key@, msg@)),
{
    let mut mac = hmac::Hmac::<sha2::Sha256>::new_from_slice(key).unwrap();
    mac.update(msg);
    mac.verify_slice(code).is_ok()
}

/// Calls `apply_keystream` of `chacha20::ChaCha20Legacy`, which panics where a
/// text is longer than the key stream; such texts are left out.
///
/// Claimed: each byte of the text is combined by exclusive or with the byte at
/// its position in a key stream that depends on key and nonce alone.
#[verifier::external_body]
pub(crate) fn chacha20(key: &[u8; 32], nonce: &[u8; 8], text: &[u8]) -> (out: Vec<u8>)
    requires
        text@.len() <= MAX_TEXT_LEN,
    ensures
        out@.len() == text@.len(),
        forall|i: int|
            #![trigger out@[i]]
            0 <= i < text@.len() ==> out@[i] == text@[i] ^ chacha20_stream(key@, nonce@, i),
{
    let mut out = text.to_vec();
    chacha20::ChaCha20Legacy::new(key.into(), nonce.into()).apply_keystream(&mut out);
    out
}

/// Calls `x25519_dalek::x25519`.
///
/// Claimed: the result is a function of scalar and point, and, where the point
/// is the base point, the Diffie-Hellman property: any other scalar `s` makes of
/// the result what `k` makes of the multiple of the base point by `s`.
#[verifier::external_body]
pub(crate) fn scalar_mult(k: &[u8; 32], u: &[u8; 32]) -> (v: [u8; 32])
    ensures
        v@ == x25519(k@, u@),
        u@ == base_point() ==> forall|s: Seq<u8>|
            #![trigger x25519(s, base_point())]
            s.len() == 32 ==> x25519(s, v@) == x25519(k@, x25519(s, base_point())),
{
    x25519_dalek::x25519(*k, *u)
}

/// Calls `x25519_dalek::StaticSecret::random`, which draws from the operating
/// system.
///
/// Nothing is claimed of the bytes. Where the operating system has no randomness
/// to give, the outside function does not return.
#[verifier::external_body]
pub(crate) fn random_secret() -> (k: [u8; 32]) {
    x25519_dalek::StaticSecret::random().to_bytes()
}

} // verus!
