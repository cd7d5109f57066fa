//! Symmetric keys, and how they are derived.
use vstd::prelude::*;

use crate::primitives;
#[allow(unused_imports)]
use crate::primitives::{chacha20_stream, hkdf_sha256, hmac_sha256, MAX_TEXT_LEN};

verus! {

/// A text combined byte by byte with a key stream.
pub open spec fn stream_xor(key: Seq<u8>, nonce: Seq<u8>, text: Seq<u8>) -> Seq<u8> {
    Seq::new(text.len(), |i: int| text[i] ^ chacha20_stream(key, nonce, i))
}

/// The nonce of one encryption.
#[derive(Clone, Copy)]
pub struct Nonce {
    pub bytes: [u8; 8],
}

impl View for Nonce {
    type V = Seq<u8>;

    open spec fn view(&self) -> Seq<u8> {
        self.bytes@
    }
}

/// A key that encrypts.
#[derive(Clone, Copy)]
pub struct CipherKey {
    pub bytes: [u8; 32],
}

impl View for CipherKey {
    type V = Seq<u8>;

    open spec fn view(&self) -> Seq<u8> {
        self.bytes@
    }
}

impl CipherKey {
    pub fn new(bytes: [u8; 32]) -> (r: CipherKey)
        ensures
            r@ == bytes@,
    {
        CipherKey { bytes }
    }

    pub fn as_slice(&self) -> (r: &[u8])
        ensures
            r@ == self@,
    {
        self.bytes.as_slice()
    }

    /// The cipher text of `plain` under this key and a nonce.
    pub fn encrypt(&self, plain: &[u8], nonce: &Nonce) -> (r: Vec<u8>)
        requires
            plain@.len() <= MAX_TEXT_LEN,
        ensures
            r@ == stream_xor(self@, nonce@, plain@),
    {
        let r = primitives::chacha20(&self.bytes, &nonce.bytes, plain);
        assert(r@ =~= stream_xor(self@, nonce@, plain@));
        r
    }

    /// The text whose cipher text under this key and a nonce is `cipher`.
    pub fn decrypt(&self, cipher: &[u8], nonce: &Nonce) -> (r: Vec<u8>)
        requires
            cipher@.len() <= MAX_TEXT_LEN,
        ensures
            r@ == stream_xor(self@, nonce@, cipher@),
    {
        let r = primitives::chacha20(&self.bytes, &nonce.bytes, cipher);
        assert(r@ =~= stream_xor(self@, nonce@, cipher@));
        r
    }
}

/// What `decrypt` makes of what `encrypt` made of a text, under the same key and
/// nonce, is that text.
pub proof fn law_cipher_round_trip(key: Seq<u8>, nonce: Seq<u8>, text: Seq<u8>)
    ensures
        stream_xor(key, nonce, stream_xor(key, nonce, text)) == text,
{
    let twice = stream_xor(key, nonce, stream_xor(key, nonce, text));
    assert forall|i: int| 0 <= i < text.len() implies twice[i] == text[i] by {
        let a = text[i];
        let b = chacha20_stream(key, nonce, i);
        assert((a ^ b) ^ b == a) by (bit_vector);
    }
    assert(twice =~= text);
}

/// A message authentication code.
#[derive(Clone, Copy)]
pub struct Mac {
    pub bytes: [u8; 32],
}

impl View for Mac {
    type V = Seq<u8>;

    open spec fn view(&self) -> Seq<u8> {
        self.bytes@
    }
}

impl Mac {
    pub fn to_bytes(&self) -> (r: [u8; 32])
        ensures
            r@ == self@,
    {
        self.bytes
    }

    pub fn as_slice(&self) -> (r: &[u8])
        ensures
            r@ == self@,
    {
        self.bytes.as_slice()
    }
}

/// A key that authenticates.
#[derive(Clone, Copy)]
pub struct MacKey {
    pub bytes: [u8; 32],
}

impl View for MacKey {
    type V = Seq<u8>;

    open spec fn view(&self) -> Seq<u8> {
        self.bytes@
    }
}

impl MacKey {
    pub fn new(bytes: [u8; 32]) -> (r: MacKey)
        ensures
            r@ == bytes@,
    {
        MacKey { bytes }
    }

    /// The code of `msg` under this key.
    pub fn sign(&self, msg: &[u8]) -> (r: Mac)
        ensures
            r@ == hmac_sha256(self@, msg@),
    {
        Mac { bytes: primitives::hmac(&self.bytes, msg) }
    }

    /// Whether `mac` is the code of `msg` under this key.
    pub fn verify(&self, mac: &Mac, msg: &[u8]) -> (r: bool)
        ensures
            r == (mac@ == hmac_sha256(self@, msg@)),
    {
        primitives::hmac_verify(&self.bytes, msg, &mac.bytes)
    }
}

/// The input key material of a derivation.
#[derive(Clone, Copy)]
pub struct Input<'r>(pub &'r [u8]);

/// The salt of a derivation.
#[derive(Clone, Copy)]
pub struct Salt<'r>(pub &'r [u8]);

/// What a derivation is for.
#[derive(Clone, Copy)]
pub struct Info<'r>(pub &'r [u8]);

/// A cipher key and an authentication key that were derived together.
#[derive(Clone, Copy)]
pub struct DerivedSecrets {
    pub cipher_key: CipherKey,
    pub mac_key: MacKey,
}

/// The model of [`DerivedSecrets`].
#[verifier::ext_equal]
pub struct DerivedSecretsView {
    pub cipher_key: Seq<u8>,
    pub mac_key: Seq<u8>,
}

impl View for DerivedSecrets {
    type V = DerivedSecretsView;

    open spec fn view(&self) -> DerivedSecretsView {
        DerivedSecretsView { cipher_key: self.cipher_key@, mac_key: self.mac_key@ }
    }
}

/// 64 derived bytes as keys: the first half encrypts, the second authenticates.
pub open spec fn split_okm(okm: Seq<u8>) -> DerivedSecretsView {
    DerivedSecretsView { cipher_key: okm.subrange(0, 32), mac_key: okm.subrange(32, 64) }
}

/// The keys derived from an input, a salt and an info string.
pub open spec fn derived_secrets(
    input: Seq<u8>,
    salt: Seq<u8>,
    info: Seq<u8>,
) -> DerivedSecretsView {
    split_okm(hkdf_sha256(salt, input, info, 64))
}

/// The 32 bytes of `b` from `from` on.
pub(crate) fn bytes32(b: &[u8], from: usize) -> (r: [u8; 32])
    requires
        from + 32 <= b@.len(),
    ensures
        r@ == b@.subrange(from as int, from + 32),
{
    let mut r: [u8; 32] = [0u8; 32];
    let n: usize = b.len();
    let mut i: usize = 0;
    while i < 32
        invariant
            i <= 32,
            n == b@.len(),
            from + 32 <= n,
            forall|j: int| 0 <= j < i ==> r@[j] == b@[from + j],
        decreases 32 - i,
    {
        r[i] = b[from + i];
        i = i + 1;
    }
    assert(r@ =~= b@.subrange(from as int, from + 32));
    r
}

impl DerivedSecrets {
    /// Splits 64 derived bytes.
    pub fn split(okm: &[u8]) -> (r: DerivedSecrets)
        requires
            okm@.len() == 64,
        ensures
            r@ == split_okm(okm@),
    {
        DerivedSecrets {
            cipher_key: CipherKey::new(bytes32(okm, 0)),
            mac_key: MacKey::new(bytes32(okm, 32)),
        }
    }

    pub fn kdf(input: Input, salt: Salt, info: Info) -> (r: DerivedSecrets)
        ensures
            r@ == derived_secrets(input.0@, salt.0@, info.0@),
    {
        let okm = primitives::hkdf(salt.0, input.0, info.0, 64);
        DerivedSecrets::split(okm.as_slice())
    }

    pub fn kdf_without_salt(input: Input, info: Info) -> (r: DerivedSecrets)
        ensures
            r@ == derived_secrets(input.0@, Seq::<u8>::empty(), info.0@),
    {
        let none: [u8; 0] = [];
        assert(none@ =~= Seq::<u8>::empty());
        DerivedSecrets::kdf(input, Salt(none.as_slice()), info)
    }
}

} // verus!
