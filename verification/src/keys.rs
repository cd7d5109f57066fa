//! Key pairs, identities and prekeys.
use vstd::prelude::*;

use crate::primitives;
#[allow(unused_imports)]
use crate::primitives::{base_point, x25519};

verus! {

/// Compares 32 bytes.
fn same_bytes(a: &[u8; 32], b: &[u8; 32]) -> (r: bool)
    ensures
        r == (a@ == b@),
{
    let mut i: usize = 0;
    while i < 32
        invariant
            i <= 32,
            forall|j: int| 0 <= j < i ==> a@[j] == b@[j],
        decreases 32 - i,
    {
        if a[i] != b[i] {
            assert(a@[i as int] != b@[i as int]);
            return false;
        }
        i = i + 1;
    }
    assert(a@ =~= b@);
    true
}

/// The public key that belongs to a secret key.
pub open spec fn public_of(secret: Seq<u8>) -> Seq<u8> {
    x25519(secret, base_point())
}

/// Whether a secret key and any other secret key agree on a shared secret.
#[verifier::opaque]
pub open spec fn agreeable(secret: Seq<u8>) -> bool {
    forall|s: Seq<u8>|
        #![trigger public_of(s)]
        s.len() == 32 ==> x25519(s, public_of(secret)) == x25519(secret, public_of(s))
}

/// A public key.
#[derive(Clone, Copy)]
pub struct PublicKey {
    pub bytes: [u8; 32],
}

impl View for PublicKey {
    type V = Seq<u8>;

    open spec fn view(&self) -> Seq<u8> {
        self.bytes@
    }
}

impl PartialEq for PublicKey {
    fn eq(&self, other: &PublicKey) -> (r: bool) {
        same_bytes(&self.bytes, &other.bytes)
    }
}

impl vstd::std_specs::cmp::PartialEqSpecImpl for PublicKey {
    open spec fn obeys_eq_spec() -> bool {
        true
    }

    open spec fn eq_spec(&self, other: &PublicKey) -> bool {
        self@ == other@
    }
}

/// The two hexadecimal digits of a byte.
pub open spec fn hex_byte(b: u8) -> Seq<char> {
    seq![hex_digit((b / 16) as int), hex_digit((b % 16) as int)]
}

pub open spec fn hex_digit(d: int) -> char {
    "0123456789abcdef"@[d]
}

/// Bytes in hexadecimal.
pub open spec fn hex(b: Seq<u8>) -> Seq<char>
    decreases b.len(),
{
    if b.len() == 0 {
        Seq::empty()
    } else {
        hex(b.drop_last()) + hex_byte(b.last())
    }
}

impl PublicKey {
    /// The key in hexadecimal.
    pub fn fingerprint(&self) -> (r: String)
        ensures
            r@ == hex(self@),
    {
        let digits = "0123456789abcdef";
        proof {
            reveal_strlit("0123456789abcdef");
        }
        let mut r = String::new();
        let mut i: usize = 0;
        while i < 32
            invariant
                i <= 32,
                digits@ == "0123456789abcdef"@,
                digits@.len() == 16,
                digits.is_ascii(),
                r@ == hex(self@.take(i as int)),
            decreases 32 - i,
        {
            let b: u8 = self.bytes[i];
            let hi: usize = (b / 16) as usize;
            let lo: usize = (b % 16) as usize;
            r.append(digits.substring_ascii(hi, hi + 1));
            r.append(digits.substring_ascii(lo, lo + 1));
            proof {
                assert(self@.take(i + 1).drop_last() =~= self@.take(i as int));
                assert(r@ =~= hex(self@.take(i as int)) + hex_byte(b));
            }
            i = i + 1;
        }
        assert(self@.take(32) =~= self@);
        r
    }
}

/// A secret key.
#[derive(Clone, Copy)]
pub struct SecretKey {
    pub bytes: [u8; 32],
}

impl View for SecretKey {
    type V = Seq<u8>;

    open spec fn view(&self) -> Seq<u8> {
        self.bytes@
    }
}

impl SecretKey {
    /// The secret that this key and the key behind `theirs` share.
    pub fn shared_secret(&self, theirs: &PublicKey) -> (r: [u8; 32])
        ensures
            r@ == x25519(self@, theirs@),
    {
        primitives::scalar_mult(&self.bytes, &theirs.bytes)
    }

    /// The public key that belongs to this key.
    pub fn public_key(&self) -> (r: PublicKey)
        ensures
            r@ == public_of(self@),
            agreeable(self@),
    {
        let base: [u8; 32] = [
            9, 0, 0, 0, 0, 0, 0, 0, 0, 0, 0, 0, 0, 0, 0, 0, 0, 0, 0, 0, 0, 0, 0, 0, 0, 0, 0, 0, 0,
            0, 0, 0,
        ];
        assert(base@ =~= base_point());
        let bytes = primitives::scalar_mult(&self.bytes, &base);
        assert(agreeable(self@)) by {
            reveal(agreeable);
        }
        PublicKey { bytes }
    }
}

/// A secret key with its public key.
#[derive(Clone, Copy)]
pub struct KeyPair {
    pub secret_key: SecretKey,
    pub public_key: PublicKey,
}

/// The model of a key pair.
#[verifier::ext_equal]
pub struct KeyPairView {
    pub secret: Seq<u8>,
    pub public: Seq<u8>,
}

impl KeyPairView {
    /// The public key is that of the secret key.
    pub open spec fn valid(self) -> bool {
        &&& self.secret.len() == 32
        &&& self.public.len() == 32
        &&& self.public == public_of(self.secret)
        &&& agreeable(self.secret)
    }
}

impl View for KeyPair {
    type V = KeyPairView;

    open spec fn view(&self) -> KeyPairView {
        KeyPairView { secret: self.secret_key@, public: self.public_key@ }
    }
}

impl KeyPair {
    /// A key pair from fresh randomness.
    pub fn new() -> (r: KeyPair)
        ensures
            r@.valid(),
    {
        KeyPair::from_secret_key(SecretKey { bytes: primitives::random_secret() })
    }

    /// The key pair of a secret key.
    pub fn from_secret_key(secret_key: SecretKey) -> (r: KeyPair)
        ensures
            r@.valid(),
            r@.secret == secret_key@,
    {
        KeyPair { secret_key, public_key: secret_key.public_key() }
    }
}

/// Either of two key pairs, with the public key of the other, gives the same
/// shared secret.
pub proof fn law_shared_secret_agrees(a: KeyPairView, b: KeyPairView)
    requires
        a.valid(),
        b.valid(),
    ensures
        x25519(a.secret, b.public) == x25519(b.secret, a.public),
{
    reveal(agreeable);
    assert(public_of(b.secret) == b.public);
}

/// The public key by which a peer is known.
#[derive(Clone, Copy)]
pub struct IdentityKey {
    pub public_key: PublicKey,
}

impl View for IdentityKey {
    type V = Seq<u8>;

    open spec fn view(&self) -> Seq<u8> {
        self.public_key@
    }
}

impl PartialEq for IdentityKey {
    fn eq(&self, other: &IdentityKey) -> (r: bool) {
        self.public_key == other.public_key
    }
}

impl vstd::std_specs::cmp::PartialEqSpecImpl for IdentityKey {
    open spec fn obeys_eq_spec() -> bool {
        true
    }

    open spec fn eq_spec(&self, other: &IdentityKey) -> bool {
        self@ == other@
    }
}

impl IdentityKey {
    /// The identity in hexadecimal.
    pub fn fingerprint(&self) -> (r: String)
        ensures
            r@ == hex(self@),
    {
        self.public_key.fingerprint()
    }
}

/// The long-lived key pair of a peer.
#[derive(Clone, Copy)]
pub struct IdentityKeyPair {
    pub secret_key: SecretKey,
    pub public_key: IdentityKey,
}

impl View for IdentityKeyPair {
    type V = KeyPairView;

    open spec fn view(&self) -> KeyPairView {
        KeyPairView { secret: self.secret_key@, public: self.public_key@ }
    }
}

impl IdentityKeyPair {
    /// An identity from fresh randomness.
    pub fn new() -> (r: IdentityKeyPair)
        ensures
            r@.valid(),
    {
        IdentityKeyPair::from_key_pair(KeyPair::new())
    }

    /// A key pair as identity.
    pub fn from_key_pair(kp: KeyPair) -> (r: IdentityKeyPair)
        ensures
            r@ == kp@,
    {
        IdentityKeyPair {
            secret_key: kp.secret_key,
            public_key: IdentityKey { public_key: kp.public_key },
        }
    }
}

/// The number of a prekey.
#[derive(Clone, Copy, Debug, PartialEq, Eq, Structural)]
pub struct PreKeyId {
    pub id: u16,
}

impl View for PreKeyId {
    type V = u16;

    open spec fn view(&self) -> u16 {
        self.id
    }
}

/// The number of the prekey of last resort, which is never used up.
pub const MAX_PREKEY_ID: u16 = 0xFFFF;

impl PreKeyId {
    pub fn new(id: u16) -> (r: PreKeyId)
        ensures
            r@ == id,
    {
        PreKeyId { id }
    }

    pub fn value(&self) -> (r: u16)
        ensures
            r == self@,
    {
        self.id
    }
}

/// A numbered key pair that starts one session.
#[derive(Clone, Copy)]
pub struct PreKey {
    pub key_id: PreKeyId,
    pub key_pair: KeyPair,
}

/// The model of [`PreKey`].
#[verifier::ext_equal]
pub struct PreKeyView {
    pub key_id: u16,
    pub key_pair: KeyPairView,
}

impl View for PreKey {
    type V = PreKeyView;

    open spec fn view(&self) -> PreKeyView {
        PreKeyView { key_id: self.key_id@, key_pair: self.key_pair@ }
    }
}

impl PreKey {
    /// A prekey from fresh randomness.
    pub fn new(key_id: PreKeyId) -> (r: PreKey)
        ensures
            r@.key_id == key_id@,
            r@.key_pair.valid(),
    {
        PreKey { key_id, key_pair: KeyPair::new() }
    }
}

/// The number of the `i`th prekey of a batch. The batch passes over the number
/// of the prekey of last resort.
pub open spec fn batch_id(start: u16, i: int) -> int {
    (start + i) % (MAX_PREKEY_ID as int)
}

/// Makes `size` prekeys, numbered from `start` on.
pub fn gen_prekeys(start: PreKeyId, size: u16) -> (r: Vec<PreKey>)
    ensures
        r@.len() == size,
        forall|i: int|
            #![trigger r@[i]]
            0 <= i < size ==> r@[i]@.key_id == batch_id(start@, i) && r@[i]@.key_pair.valid(),
{
    let mut r: Vec<PreKey> = Vec::new();
    let mut i: u16 = 0;
    while i < size
        invariant
            i <= size,
            r@.len() == i,
            forall|j: int|
                #![trigger r@[j]]
                0 <= j < i ==> r@[j]@.key_id == batch_id(start@, j) && r@[j]@.key_pair.valid(),
        decreases size - i,
    {
        let id: u32 = (start.id as u32 + i as u32) % (MAX_PREKEY_ID as u32);
        r.push(PreKey::new(PreKeyId::new(id as u16)));
        i = i + 1;
    }
    r
}

/// What a peer publishes so that others can start a session with it.
#[derive(Clone, Copy)]
pub struct PreKeyBundle {
    pub prekey_id: PreKeyId,
    pub public_key: PublicKey,
    pub identity_key: IdentityKey,
}

/// The model of [`PreKeyBundle`].
#[verifier::ext_equal]
pub struct PreKeyBundleView {
    pub prekey_id: u16,
    pub public_key: Seq<u8>,
    pub identity_key: Seq<u8>,
}

impl View for PreKeyBundle {
    type V = PreKeyBundleView;

    open spec fn view(&self) -> PreKeyBundleView {
        PreKeyBundleView {
            prekey_id: self.prekey_id@,
            public_key: self.public_key@,
            identity_key: self.identity_key@,
        }
    }
}

impl PreKeyBundle {
    /// The bundle of an identity and one of its prekeys.
    pub fn new(identity_key: IdentityKey, key: &PreKey) -> (r: PreKeyBundle)
        ensures
            r@ == (PreKeyBundleView {
                prekey_id: key@.key_id,
                public_key: key@.key_pair.public,
                identity_key: identity_key@,
            }),
    {
        PreKeyBundle {
            prekey_id: key.key_id,
            public_key: key.key_pair.public_key,
            identity_key,
        }
    }
}

} // verus!
