//! Root keys, chain keys and message keys.
use vstd::prelude::*;

use crate::derived::{CipherKey, DerivedSecrets, Info, Input, MacKey, Salt};
#[allow(unused_imports)]
use crate::derived::{derived_secrets, stream_xor, DerivedSecretsView};
#[allow(unused_imports)]
use crate::keys::KeyPairView;
use crate::keys::{KeyPair, PublicKey};
use crate::message::Counter;
#[allow(unused_imports)]
use crate::message::{counter_nonce, next_counter};
#[allow(unused_imports)]
use crate::primitives::{hmac_sha256, x25519, MAX_TEXT_LEN};
#[allow(unused_imports)]
use vstd::utf8::encode_utf8;

verus! {

/// The key from which chains start.
#[derive(Clone, Copy)]
pub struct RootKey {
    pub key: CipherKey,
}

impl View for RootKey {
    type V = Seq<u8>;

    open spec fn view(&self) -> Seq<u8> {
        self.key@
    }
}

/// The root key and the chain key that follow from a root key and a shared
/// secret.
pub open spec fn root_step(root: Seq<u8>, shared: Seq<u8>) -> (Seq<u8>, ChainKeyView) {
    let d = derived_secrets(shared, root, encode_utf8("dh_ratchet"@));
    (d.cipher_key, ChainKeyView { key: d.mac_key, idx: 0 })
}

/// The root key and the chain key that follow from a root key, our secret key
/// and their public key.
pub open spec fn dh_ratchet(root: Seq<u8>, ours: Seq<u8>, theirs: Seq<u8>) -> (
    Seq<u8>,
    ChainKeyView,
) {
    root_step(root, x25519(ours, theirs))
}

impl RootKey {
    pub fn from_cipher_key(k: CipherKey) -> (r: RootKey)
        ensures
            r@ == k@,
    {
        RootKey { key: k }
    }

    /// The next root key, and a chain that starts from it.
    pub fn dh_ratchet(&self, ours: &KeyPair, theirs: &PublicKey) -> (r: (RootKey, ChainKey))
        ensures
            (r.0@, r.1@) == dh_ratchet(self@, ours@.secret, theirs@),
    {
        let secret = ours.secret_key.shared_secret(theirs);
        let dsecs = DerivedSecrets::kdf(
            Input(secret.as_slice()),
            Salt(self.key.as_slice()),
            Info("dh_ratchet".as_bytes()),
        );
        RootKey::from_secrets(dsecs)
    }

    /// Derived keys as the next root key and the start of a chain.
    pub fn from_secrets(dsecs: DerivedSecrets) -> (r: (RootKey, ChainKey))
        ensures
            r.0@ == dsecs@.cipher_key,
            r.1@ == (ChainKeyView { key: dsecs@.mac_key, idx: 0 }),
    {
        (
            RootKey::from_cipher_key(dsecs.cipher_key),
            ChainKey::from_mac_key(dsecs.mac_key, Counter::zero()),
        )
    }
}

/// A key that moves on with each message.
#[derive(Clone, Copy)]
pub struct ChainKey {
    pub key: MacKey,
    pub idx: Counter,
}

/// The model of [`ChainKey`].
#[verifier::ext_equal]
pub struct ChainKeyView {
    pub key: Seq<u8>,
    pub idx: u32,
}

impl ChainKeyView {
    /// The chain key after this one.
    pub open spec fn next(self) -> ChainKeyView {
        ChainKeyView {
            key: hmac_sha256(self.key, encode_utf8("1"@)),
            idx: next_counter(self.idx),
        }
    }

    /// The chain key `n` steps after this one.
    pub open spec fn advanced(self, n: nat) -> ChainKeyView
        decreases n,
    {
        if n == 0 {
            self
        } else {
            self.advanced((n - 1) as nat).next()
        }
    }

    /// The keys of the message at this position.
    pub open spec fn message_keys(self) -> MessageKeysView {
        let base = hmac_sha256(self.key, encode_utf8("0"@));
        let d = derived_secrets(base, Seq::empty(), encode_utf8("hash_ratchet"@));
        MessageKeysView { cipher_key: d.cipher_key, mac_key: d.mac_key, counter: self.idx }
    }
}

impl View for ChainKey {
    type V = ChainKeyView;

    open spec fn view(&self) -> ChainKeyView {
        ChainKeyView { key: self.key@, idx: self.idx@ }
    }
}

impl ChainKey {
    pub fn from_mac_key(k: MacKey, idx: Counter) -> (r: ChainKey)
        ensures
            r@ == (ChainKeyView { key: k@, idx: idx@ }),
    {
        ChainKey { key: k, idx }
    }

    /// The chain key after this one.
    pub fn next(&self) -> (r: ChainKey)
        ensures
            r@ == self@.next(),
    {
        ChainKey {
            key: MacKey::new(self.key.sign("1".as_bytes()).to_bytes()),
            idx: self.idx.next(),
        }
    }

    /// The keys of the message at this position.
    pub fn message_keys(&self) -> (r: MessageKeys)
        ensures
            r@ == self@.message_keys(),
    {
        let base = self.key.sign("0".as_bytes());
        let dsecs = DerivedSecrets::kdf_without_salt(
            Input(base.as_slice()),
            Info("hash_ratchet".as_bytes()),
        );
        MessageKeys { cipher_key: dsecs.cipher_key, mac_key: dsecs.mac_key, counter: self.idx }
    }
}

/// The chain that keys what is sent.
#[derive(Clone, Copy)]
pub struct SendChain {
    pub chain_key: ChainKey,
    pub ratchet_key: KeyPair,
}

/// The model of [`SendChain`].
#[verifier::ext_equal]
pub struct SendChainView {
    pub chain_key: ChainKeyView,
    pub ratchet_key: KeyPairView,
}

impl View for SendChain {
    type V = SendChainView;

    open spec fn view(&self) -> SendChainView {
        SendChainView { chain_key: self.chain_key@, ratchet_key: self.ratchet_key@ }
    }
}

impl SendChain {
    pub fn new(ck: ChainKey, rk: KeyPair) -> (r: SendChain)
        ensures
            r@ == (SendChainView { chain_key: ck@, ratchet_key: rk@ }),
    {
        SendChain { chain_key: ck, ratchet_key: rk }
    }
}

/// A chain that keys what is received under one ratchet key of the peer.
#[derive(Clone, Copy)]
pub struct RecvChain {
    pub chain_key: ChainKey,
    pub ratchet_key: PublicKey,
}

/// The model of [`RecvChain`].
#[verifier::ext_equal]
pub struct RecvChainView {
    pub chain_key: ChainKeyView,
    pub ratchet_key: Seq<u8>,
}

impl View for RecvChain {
    type V = RecvChainView;

    open spec fn view(&self) -> RecvChainView {
        RecvChainView { chain_key: self.chain_key@, ratchet_key: self.ratchet_key@ }
    }
}

impl RecvChain {
    pub fn new(ck: ChainKey, rk: PublicKey) -> (r: RecvChain)
        ensures
            r@ == (RecvChainView { chain_key: ck@, ratchet_key: rk@ }),
    {
        RecvChain { chain_key: ck, ratchet_key: rk }
    }
}

/// The keys of one message.
#[derive(Clone, Copy)]
pub struct MessageKeys {
    pub cipher_key: CipherKey,
    pub mac_key: MacKey,
    pub counter: Counter,
}

/// The model of [`MessageKeys`].
#[verifier::ext_equal]
pub struct MessageKeysView {
    pub cipher_key: Seq<u8>,
    pub mac_key: Seq<u8>,
    pub counter: u32,
}

impl MessageKeysView {
    /// A text encrypted, or decrypted, with these keys.
    pub open spec fn crypt(self, text: Seq<u8>) -> Seq<u8> {
        stream_xor(self.cipher_key, counter_nonce(self.counter), text)
    }
}

impl View for MessageKeys {
    type V = MessageKeysView;

    open spec fn view(&self) -> MessageKeysView {
        MessageKeysView {
            cipher_key: self.cipher_key@,
            mac_key: self.mac_key@,
            counter: self.counter@,
        }
    }
}

impl MessageKeys {
    pub fn encrypt(&self, plain_text: &[u8]) -> (r: Vec<u8>)
        requires
            plain_text@.len() <= MAX_TEXT_LEN,
        ensures
            r@ == self@.crypt(plain_text@),
    {
        self.cipher_key.encrypt(plain_text, &self.counter.as_nonce())
    }

    pub fn decrypt(&self, cipher_text: &[u8]) -> (r: Vec<u8>)
        requires
            cipher_text@.len() <= MAX_TEXT_LEN,
        ensures
            r@ == self@.crypt(cipher_text@),
    {
        self.cipher_key.decrypt(cipher_text, &self.counter.as_nonce())
    }
}

} // verus!
