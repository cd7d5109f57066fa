//! The byte formats of keys, messages and sessions.
use vstd::prelude::*;

use crate::derived::{CipherKey, Mac, MacKey};
use crate::keys::{
    IdentityKey, IdentityKeyPair, KeyPair, KeyPairView, PreKey, PreKeyBundle, PreKeyBundleView,
    PreKeyId, PreKeyView, PublicKey, SecretKey,
};
use crate::message::{
    CipherMessage, CipherMessageView, Counter, Envelope, EnvelopeView, Message, MessageView,
    PreKeyMessage, PreKeyMessageView,
};
use crate::list::List;
use crate::primitives::MAX_TEXT_LEN;
use crate::session::chain::{
    ChainKey, ChainKeyView, MessageKeys, MessageKeysView, RecvChain, RecvChainView, RootKey,
    SendChain, SendChainView,
};
use crate::session::state::{SessionState, SessionStateView};
use crate::session::{Session, SessionView, Version};
#[allow(unused_imports)]
use crate::wire::{lemma_found_again, lemma_unread};
use crate::wire::{Maybe, Wire};

verus! {

impl Wire for PublicKey {
    open spec fn legal(v: Seq<u8>) -> bool {
        <[u8; 32]>::legal(v)
    }

    open spec fn sound(v: Seq<u8>) -> bool {
        true
    }

    open spec fn bytes(v: Seq<u8>) -> Seq<u8> {
        <[u8; 32]>::bytes(v)
    }

    proof fn lemma_prefix_free(v: Seq<u8>, w: Seq<u8>, r: Seq<u8>, s: Seq<u8>) {
        <[u8; 32]>::lemma_prefix_free(v, w, r, s);
    }

    proof fn lemma_own(&self) {
    }

    fn enc(&self, out: &mut Vec<u8>) {
        self.bytes.enc(out);
    }

    fn dec(b: &[u8], pos: usize) -> (r: Option<(PublicKey, usize)>) {
        match <[u8; 32]>::dec(b, pos) {
            Some((bytes, n)) => Some((PublicKey { bytes }, n)),
            None => {
                proof {
                    lemma_unread::<[u8; 32]>(b@.skip(pos as int));
                }
                None
            },
        }
    }
}

impl Wire for SecretKey {
    open spec fn legal(v: Seq<u8>) -> bool {
        <[u8; 32]>::legal(v)
    }

    open spec fn sound(v: Seq<u8>) -> bool {
        true
    }

    open spec fn bytes(v: Seq<u8>) -> Seq<u8> {
        <[u8; 32]>::bytes(v)
    }

    proof fn lemma_prefix_free(v: Seq<u8>, w: Seq<u8>, r: Seq<u8>, s: Seq<u8>) {
        <[u8; 32]>::lemma_prefix_free(v, w, r, s);
    }

    proof fn lemma_own(&self) {
    }

    fn enc(&self, out: &mut Vec<u8>) {
        self.bytes.enc(out);
    }

    fn dec(b: &[u8], pos: usize) -> (r: Option<(SecretKey, usize)>) {
        match <[u8; 32]>::dec(b, pos) {
            Some((bytes, n)) => Some((SecretKey { bytes }, n)),
            None => {
                proof {
                    lemma_unread::<[u8; 32]>(b@.skip(pos as int));
                }
                None
            },
        }
    }
}

impl Wire for CipherKey {
    open spec fn legal(v: Seq<u8>) -> bool {
        <[u8; 32]>::legal(v)
    }

    open spec fn sound(v: Seq<u8>) -> bool {
        true
    }

    open spec fn bytes(v: Seq<u8>) -> Seq<u8> {
        <[u8; 32]>::bytes(v)
    }

    proof fn lemma_prefix_free(v: Seq<u8>, w: Seq<u8>, r: Seq<u8>, s: Seq<u8>) {
        <[u8; 32]>::lemma_prefix_free(v, w, r, s);
    }

    proof fn lemma_own(&self) {
    }

    fn enc(&self, out: &mut Vec<u8>) {
        self.bytes.enc(out);
    }

    fn dec(b: &[u8], pos: usize) -> (r: Option<(CipherKey, usize)>) {
        match <[u8; 32]>::dec(b, pos) {
            Some((bytes, n)) => Some((CipherKey { bytes }, n)),
            None => {
                proof {
                    lemma_unread::<[u8; 32]>(b@.skip(pos as int));
                }
                None
            },
        }
    }
}

impl Wire for MacKey {
    open spec fn legal(v: Seq<u8>) -> bool {
        <[u8; 32]>::legal(v)
    }

    open spec fn sound(v: Seq<u8>) -> bool {
        true
    }

    open spec fn bytes(v: Seq<u8>) -> Seq<u8> {
        <[u8; 32]>::bytes(v)
    }

    proof fn lemma_prefix_free(v: Seq<u8>, w: Seq<u8>, r: Seq<u8>, s: Seq<u8>) {
        <[u8; 32]>::lemma_prefix_free(v, w, r, s);
    }

    proof fn lemma_own(&self) {
    }

    fn enc(&self, out: &mut Vec<u8>) {
        self.bytes.enc(out);
    }

    fn dec(b: &[u8], pos: usize) -> (r: Option<(MacKey, usize)>) {
        match <[u8; 32]>::dec(b, pos) {
            Some((bytes, n)) => Some((MacKey { bytes }, n)),
            None => {
                proof {
                    lemma_unread::<[u8; 32]>(b@.skip(pos as int));
                }
                None
            },
        }
    }
}

impl Wire for Mac {
    open spec fn legal(v: Seq<u8>) -> bool {
        <[u8; 32]>::legal(v)
    }

    open spec fn sound(v: Seq<u8>) -> bool {
        true
    }

    open spec fn bytes(v: Seq<u8>) -> Seq<u8> {
        <[u8; 32]>::bytes(v)
    }

    proof fn lemma_prefix_free(v: Seq<u8>, w: Seq<u8>, r: Seq<u8>, s: Seq<u8>) {
        <[u8; 32]>::lemma_prefix_free(v, w, r, s);
    }

    proof fn lemma_own(&self) {
    }

    fn enc(&self, out: &mut Vec<u8>) {
        self.bytes.enc(out);
    }

    fn dec(b: &[u8], pos: usize) -> (r: Option<(Mac, usize)>) {
        match <[u8; 32]>::dec(b, pos) {
            Some((bytes, n)) => Some((Mac { bytes }, n)),
            None => {
                proof {
                    lemma_unread::<[u8; 32]>(b@.skip(pos as int));
                }
                None
            },
        }
    }
}

impl Wire for IdentityKey {
    open spec fn legal(v: Seq<u8>) -> bool {
        PublicKey::legal(v)
    }

    open spec fn sound(v: Seq<u8>) -> bool {
        true
    }

    open spec fn bytes(v: Seq<u8>) -> Seq<u8> {
        PublicKey::bytes(v)
    }

    proof fn lemma_prefix_free(v: Seq<u8>, w: Seq<u8>, r: Seq<u8>, s: Seq<u8>) {
        PublicKey::lemma_prefix_free(v, w, r, s);
    }

    proof fn lemma_own(&self) {
    }

    fn enc(&self, out: &mut Vec<u8>) {
        self.public_key.enc(out);
    }

    fn dec(b: &[u8], pos: usize) -> (r: Option<(IdentityKey, usize)>) {
        match PublicKey::dec(b, pos) {
            Some((public_key, n)) => Some((IdentityKey { public_key }, n)),
            None => {
                proof {
                    lemma_unread::<PublicKey>(b@.skip(pos as int));
                }
                None
            },
        }
    }
}

impl Wire for PreKeyId {
    open spec fn legal(v: u16) -> bool {
        u16::legal(v)
    }

    open spec fn sound(v: u16) -> bool {
        true
    }

    open spec fn bytes(v: u16) -> Seq<u8> {
        u16::bytes(v)
    }

    proof fn lemma_prefix_free(v: u16, w: u16, r: Seq<u8>, s: Seq<u8>) {
        u16::lemma_prefix_free(v, w, r, s);
    }

    proof fn lemma_own(&self) {
    }

    fn enc(&self, out: &mut Vec<u8>) {
        self.id.enc(out);
    }

    fn dec(b: &[u8], pos: usize) -> (r: Option<(PreKeyId, usize)>) {
        match u16::dec(b, pos) {
            Some((id, n)) => Some((PreKeyId { id }, n)),
            None => {
                proof {
                    lemma_unread::<u16>(b@.skip(pos as int));
                }
                None
            },
        }
    }
}

impl Wire for Counter {
    open spec fn legal(v: u32) -> bool {
        u32::legal(v)
    }

    open spec fn sound(v: u32) -> bool {
        true
    }

    open spec fn bytes(v: u32) -> Seq<u8> {
        u32::bytes(v)
    }

    proof fn lemma_prefix_free(v: u32, w: u32, r: Seq<u8>, s: Seq<u8>) {
        u32::lemma_prefix_free(v, w, r, s);
    }

    proof fn lemma_own(&self) {
    }

    fn enc(&self, out: &mut Vec<u8>) {
        self.value.enc(out);
    }

    fn dec(b: &[u8], pos: usize) -> (r: Option<(Counter, usize)>) {
        match u32::dec(b, pos) {
            Some((value, n)) => Some((Counter { value }, n)),
            None => {
                proof {
                    lemma_unread::<u32>(b@.skip(pos as int));
                }
                None
            },
        }
    }
}

impl Wire for KeyPair {
    open spec fn legal(v: KeyPairView) -> bool {
        SecretKey::legal(v.secret) && v.valid()
    }

    open spec fn sound(v: KeyPairView) -> bool {
        v.valid()
    }

    open spec fn bytes(v: KeyPairView) -> Seq<u8> {
        SecretKey::bytes(v.secret)
    }

    proof fn lemma_prefix_free(v: KeyPairView, w: KeyPairView, r: Seq<u8>, s: Seq<u8>) {
        SecretKey::lemma_prefix_free(v.secret, w.secret, r, s);
    }

    proof fn lemma_own(&self) {
    }

    fn enc(&self, out: &mut Vec<u8>) {
        self.secret_key.enc(out);
    }

    fn dec(b: &[u8], pos: usize) -> (r: Option<(KeyPair, usize)>) {
        match SecretKey::dec(b, pos) {
            Some((secret_key, n)) => Some((KeyPair::from_secret_key(secret_key), n)),
            None => {
                proof {
                    lemma_unread::<SecretKey>(b@.skip(pos as int));
                }
                None
            },
        }
    }
}

impl Wire for IdentityKeyPair {
    open spec fn legal(v: KeyPairView) -> bool {
        KeyPair::legal(v)
    }

    open spec fn sound(v: KeyPairView) -> bool {
        v.valid()
    }

    open spec fn bytes(v: KeyPairView) -> Seq<u8> {
        KeyPair::bytes(v)
    }

    proof fn lemma_prefix_free(v: KeyPairView, w: KeyPairView, r: Seq<u8>, s: Seq<u8>) {
        KeyPair::lemma_prefix_free(v, w, r, s);
    }

    proof fn lemma_own(&self) {
    }

    fn enc(&self, out: &mut Vec<u8>) {
        self.secret_key.enc(out);
    }

    fn dec(b: &[u8], pos: usize) -> (r: Option<(IdentityKeyPair, usize)>) {
        match KeyPair::dec(b, pos) {
            Some((kp, n)) => Some((IdentityKeyPair::from_key_pair(kp), n)),
            None => {
                proof {
                    lemma_unread::<KeyPair>(b@.skip(pos as int));
                }
                None
            },
        }
    }
}

impl Wire for PreKey {
    open spec fn legal(v: PreKeyView) -> bool {
        <(PreKeyId, KeyPair)>::legal((v.key_id, v.key_pair))
    }

    open spec fn sound(v: PreKeyView) -> bool {
        v.key_pair.valid()
    }

    open spec fn bytes(v: PreKeyView) -> Seq<u8> {
        <(PreKeyId, KeyPair)>::bytes((v.key_id, v.key_pair))
    }

    proof fn lemma_prefix_free(v: PreKeyView, w: PreKeyView, r: Seq<u8>, s: Seq<u8>) {
        <(PreKeyId, KeyPair)>::lemma_prefix_free(
            (v.key_id, v.key_pair),
            (w.key_id, w.key_pair),
            r,
            s,
        );
    }

    proof fn lemma_own(&self) {
        (self.key_id, self.key_pair).lemma_own();
    }

    fn enc(&self, out: &mut Vec<u8>) {
        (self.key_id, self.key_pair).enc(out);
    }

    fn dec(b: &[u8], pos: usize) -> (r: Option<(PreKey, usize)>) {
        match <(PreKeyId, KeyPair)>::dec(b, pos) {
            Some(((key_id, key_pair), n)) => Some((PreKey { key_id, key_pair }, n)),
            None => {
                proof {
                    lemma_unread::<(PreKeyId, KeyPair)>(b@.skip(pos as int));
                }
                None
            },
        }
    }
}

/// The parts of a prekey bundle in the order of their bytes.
pub type BundleParts = (PreKeyId, (PublicKey, IdentityKey));

/// The models of [`BundleParts`].
pub open spec fn bundle_parts(v: PreKeyBundleView) -> (u16, (Seq<u8>, Seq<u8>)) {
    (v.prekey_id, (v.public_key, v.identity_key))
}

impl Wire for PreKeyBundle {
    open spec fn legal(v: PreKeyBundleView) -> bool {
        BundleParts::legal(bundle_parts(v))
    }

    open spec fn sound(v: PreKeyBundleView) -> bool {
        true
    }

    open spec fn bytes(v: PreKeyBundleView) -> Seq<u8> {
        BundleParts::bytes(bundle_parts(v))
    }

    proof fn lemma_prefix_free(v: PreKeyBundleView, w: PreKeyBundleView, r: Seq<u8>, s: Seq<u8>) {
        BundleParts::lemma_prefix_free(bundle_parts(v), bundle_parts(w), r, s);
    }

    proof fn lemma_own(&self) {
        (self.prekey_id, (self.public_key, self.identity_key)).lemma_own();
    }

    fn enc(&self, out: &mut Vec<u8>) {
        (self.prekey_id, (self.public_key, self.identity_key)).enc(out);
    }

    fn dec(b: &[u8], pos: usize) -> (r: Option<(PreKeyBundle, usize)>) {
        match BundleParts::dec(b, pos) {
            Some(((prekey_id, (public_key, identity_key)), n)) => Some(
                (PreKeyBundle { prekey_id, public_key, identity_key }, n),
            ),
            None => {
                proof {
                    lemma_unread::<BundleParts>(b@.skip(pos as int));
                }
                None
            },
        }
    }
}

impl Wire for CipherMessage {
    open spec fn legal(v: CipherMessageView) -> bool {
        &&& <(PublicKey, (Counter, (Counter, Vec<u8>)))>::legal(
            (v.ratchet_key, (v.counter, (v.prev_counter, v.cipher_text))),
        )
        &&& v.cipher_text.len() <= MAX_TEXT_LEN
    }

    open spec fn sound(v: CipherMessageView) -> bool {
        v.cipher_text.len() <= MAX_TEXT_LEN
    }

    open spec fn bytes(v: CipherMessageView) -> Seq<u8> {
        <(PublicKey, (Counter, (Counter, Vec<u8>)))>::bytes(
            (v.ratchet_key, (v.counter, (v.prev_counter, v.cipher_text))),
        )
    }

    proof fn lemma_prefix_free(
        v: CipherMessageView,
        w: CipherMessageView,
        r: Seq<u8>,
        s: Seq<u8>,
    ) {
        <(PublicKey, (Counter, (Counter, Vec<u8>)))>::lemma_prefix_free(
            (v.ratchet_key, (v.counter, (v.prev_counter, v.cipher_text))),
            (w.ratchet_key, (w.counter, (w.prev_counter, w.cipher_text))),
            r,
            s,
        );
    }

    proof fn lemma_own(&self) {
        self.lemma_shape();
    }

    fn enc(&self, out: &mut Vec<u8>) {
        self.ratchet_key().enc(out);
        self.counter().enc(out);
        self.prev_counter().enc(out);
        self.cipher_text().enc(out);
        assert(out@ =~= old(out)@ + Self::bytes(self@));
    }

    fn dec(b: &[u8], pos: usize) -> (r: Option<(CipherMessage, usize)>) {
        match <(PublicKey, (Counter, (Counter, Vec<u8>)))>::dec(b, pos) {
            Some(((ratchet_key, (counter, (prev_counter, cipher_text))), n)) => {
                if cipher_text.len() as u64 > MAX_TEXT_LEN {
                    proof {
                        let read = (ratchet_key@, (counter@, (prev_counter@, cipher_text@)));
                        assert forall|v: CipherMessageView, rest: Seq<u8>|
                            Self::legal(v) implies b@.skip(pos as int) != #[trigger] (Self::bytes(v)
                            + rest) by {
                            if b@.skip(pos as int) == Self::bytes(v) + rest {
                                <(PublicKey, (Counter, (Counter, Vec<u8>)))>::lemma_prefix_free(
                                    read,
                                    (v.ratchet_key, (v.counter, (v.prev_counter, v.cipher_text))),
                                    b@.skip(n as int),
                                    rest,
                                );
                            }
                        }
                    }
                    return None;
                }
                Some((CipherMessage::new(ratchet_key, counter, prev_counter, cipher_text), n))
            },
            None => {
                proof {
                    lemma_unread::<(PublicKey, (Counter, (Counter, Vec<u8>)))>(b@.skip(pos as int));
                }
                None
            },
        }
    }
}

impl Wire for PreKeyMessage {
    open spec fn legal(v: PreKeyMessageView) -> bool {
        <(PreKeyId, (PublicKey, (IdentityKey, CipherMessage)))>::legal(
            (v.prekey_id, (v.base_key, (v.identity_key, v.message))),
        )
    }

    open spec fn sound(v: PreKeyMessageView) -> bool {
        CipherMessage::sound(v.message)
    }

    open spec fn bytes(v: PreKeyMessageView) -> Seq<u8> {
        <(PreKeyId, (PublicKey, (IdentityKey, CipherMessage)))>::bytes(
            (v.prekey_id, (v.base_key, (v.identity_key, v.message))),
        )
    }

    proof fn lemma_prefix_free(
        v: PreKeyMessageView,
        w: PreKeyMessageView,
        r: Seq<u8>,
        s: Seq<u8>,
    ) {
        <(PreKeyId, (PublicKey, (IdentityKey, CipherMessage)))>::lemma_prefix_free(
            (v.prekey_id, (v.base_key, (v.identity_key, v.message))),
            (w.prekey_id, (w.base_key, (w.identity_key, w.message))),
            r,
            s,
        );
    }

    proof fn lemma_own(&self) {
        (self.prekey_id, (self.base_key, (self.identity_key, self.message))).lemma_own();
    }

    fn enc(&self, out: &mut Vec<u8>) {
        self.prekey_id.enc(out);
        self.base_key.enc(out);
        self.identity_key.enc(out);
        self.message.enc(out);
        assert(out@ =~= old(out)@ + Self::bytes(self@));
    }

    fn dec(b: &[u8], pos: usize) -> (r: Option<(PreKeyMessage, usize)>) {
        match <(PreKeyId, (PublicKey, (IdentityKey, CipherMessage)))>::dec(b, pos) {
            Some(((prekey_id, (base_key, (identity_key, message))), n)) => Some(
                (PreKeyMessage { prekey_id, base_key, identity_key, message }, n),
            ),
            None => {
                proof {
                    lemma_unread::<(PreKeyId, (PublicKey, (IdentityKey, CipherMessage)))>(
                        b@.skip(pos as int),
                    );
                }
                None
            },
        }
    }
}

impl Wire for Message {
    open spec fn legal(v: MessageView) -> bool {
        match v {
            MessageView::Plain(m) => CipherMessage::legal(m),
            MessageView::Keyed(m) => PreKeyMessage::legal(m),
        }
    }

    open spec fn sound(v: MessageView) -> bool {
        CipherMessage::sound(v.cipher())
    }

    open spec fn bytes(v: MessageView) -> Seq<u8> {
        match v {
            MessageView::Plain(m) => u8::bytes(1) + CipherMessage::bytes(m),
            MessageView::Keyed(m) => u8::bytes(2) + PreKeyMessage::bytes(m),
        }
    }

    proof fn lemma_prefix_free(v: MessageView, w: MessageView, r: Seq<u8>, s: Seq<u8>) {
        match v {
            MessageView::Plain(m) => {
                assert(Self::bytes(v) + r =~= u8::bytes(1) + (CipherMessage::bytes(m) + r));
            },
            MessageView::Keyed(m) => {
                assert(Self::bytes(v) + r =~= u8::bytes(2) + (PreKeyMessage::bytes(m) + r));
            },
        }
        match w {
            MessageView::Plain(m) => {
                assert(Self::bytes(w) + s =~= u8::bytes(1) + (CipherMessage::bytes(m) + s));
            },
            MessageView::Keyed(m) => {
                assert(Self::bytes(w) + s =~= u8::bytes(2) + (PreKeyMessage::bytes(m) + s));
            },
        }
        match (v, w) {
            (MessageView::Plain(m), MessageView::Plain(k)) => {
                let (a, b) = (CipherMessage::bytes(m) + r, CipherMessage::bytes(k) + s);
                u8::lemma_prefix_free(1, 1, a, b);
                CipherMessage::lemma_prefix_free(m, k, r, s);
            },
            (MessageView::Keyed(m), MessageView::Keyed(k)) => {
                let (a, b) = (PreKeyMessage::bytes(m) + r, PreKeyMessage::bytes(k) + s);
                u8::lemma_prefix_free(2, 2, a, b);
                PreKeyMessage::lemma_prefix_free(m, k, r, s);
            },
            (MessageView::Plain(m), MessageView::Keyed(k)) => {
                let (a, b) = (CipherMessage::bytes(m) + r, PreKeyMessage::bytes(k) + s);
                u8::lemma_prefix_free(1, 2, a, b);
            },
            (MessageView::Keyed(m), MessageView::Plain(k)) => {
                let (a, b) = (PreKeyMessage::bytes(m) + r, CipherMessage::bytes(k) + s);
                u8::lemma_prefix_free(2, 1, a, b);
            },
        }
    }

    proof fn lemma_own(&self) {
        match self {
            Message::Plain(m) => m.lemma_own(),
            Message::Keyed(m) => m.lemma_own(),
        }
    }

    fn enc(&self, out: &mut Vec<u8>) {
        match self {
            Message::Plain(m) => {
                1u8.enc(out);
                m.enc(out);
                assert(out@ =~= old(out)@ + Self::bytes(self@));
            },
            Message::Keyed(m) => {
                2u8.enc(out);
                m.enc(out);
                assert(out@ =~= old(out)@ + Self::bytes(self@));
            },
        }
    }

    fn dec(b: &[u8], pos: usize) -> (r: Option<(Message, usize)>) {
        let (tag, from): (u8, usize) = match u8::dec(b, pos) {
            Some(t) => t,
            None => {
                proof {
                    assert forall|v: MessageView, rest: Seq<u8>|
                        Self::legal(v) implies b@.skip(pos as int) != #[trigger] (Self::bytes(v)
                        + rest) by {
                        lemma_message_split(v, rest);
                    }
                }
                return None;
            },
        };
        let ghost tail = b@.skip(from as int);
        proof {
            assert forall|v: MessageView, rest: Seq<u8>|
                b@.skip(pos as int) == #[trigger] (Self::bytes(v) + rest) implies tag
                == message_tag(v) && tail == message_body(v) + rest by {
                lemma_message_split(v, rest);
                u8::lemma_prefix_free(tag, message_tag(v), tail, message_body(v) + rest);
            }
        }
        if tag == 1 {
            match CipherMessage::dec(b, from) {
                Some((m, n)) => {
                    proof {
                        lemma_message_split(MessageView::Plain(m@), b@.skip(n as int));
                    }
                    Some((Message::Plain(m), n))
                },
                None => {
                    proof {
                        assert forall|v: MessageView, rest: Seq<u8>|
                            Self::legal(v) implies b@.skip(pos as int) != #[trigger] (Self::bytes(v)
                            + rest) by {
                            if b@.skip(pos as int) == Self::bytes(v) + rest {
                                assert(tail == CipherMessage::bytes(v->Plain_0) + rest);
                            }
                        }
                    }
                    None
                },
            }
        } else if tag == 2 {
            match PreKeyMessage::dec(b, from) {
                Some((m, n)) => {
                    proof {
                        lemma_message_split(MessageView::Keyed(m@), b@.skip(n as int));
                    }
                    Some((Message::Keyed(m), n))
                },
                None => {
                    proof {
                        assert forall|v: MessageView, rest: Seq<u8>|
                            Self::legal(v) implies b@.skip(pos as int) != #[trigger] (Self::bytes(v)
                            + rest) by {
                            if b@.skip(pos as int) == Self::bytes(v) + rest {
                                assert(tail == PreKeyMessage::bytes(v->Keyed_0) + rest);
                            }
                        }
                    }
                    None
                },
            }
        } else {
            None
        }
    }
}

spec fn message_tag(v: MessageView) -> u8 {
    if v is Plain {
        1
    } else {
        2
    }
}

spec fn message_body(v: MessageView) -> Seq<u8> {
    match v {
        MessageView::Plain(m) => CipherMessage::bytes(m),
        MessageView::Keyed(m) => PreKeyMessage::bytes(m),
    }
}

proof fn lemma_message_split(v: MessageView, rest: Seq<u8>)
    ensures
        Message::bytes(v) + rest == u8::bytes(message_tag(v)) + (message_body(v) + rest),
{
    assert(Message::bytes(v) + rest =~= u8::bytes(message_tag(v)) + (message_body(v) + rest));
}

impl Wire for Envelope {
    open spec fn legal(v: EnvelopeView) -> bool {
        <(Mac, Message)>::legal((v.mac, v.message))
    }

    open spec fn sound(v: EnvelopeView) -> bool {
        Message::sound(v.message)
    }

    open spec fn bytes(v: EnvelopeView) -> Seq<u8> {
        <(Mac, Message)>::bytes((v.mac, v.message))
    }

    proof fn lemma_prefix_free(v: EnvelopeView, w: EnvelopeView, r: Seq<u8>, s: Seq<u8>) {
        <(Mac, Message)>::lemma_prefix_free((v.mac, v.message), (w.mac, w.message), r, s);
    }

    proof fn lemma_own(&self) {
        (self.mac, self.message).lemma_own();
    }

    fn enc(&self, out: &mut Vec<u8>) {
        self.mac.enc(out);
        self.message.enc(out);
        assert(out@ =~= old(out)@ + Self::bytes(self@));
    }

    fn dec(b: &[u8], pos: usize) -> (r: Option<(Envelope, usize)>) {
        match <(Mac, Message)>::dec(b, pos) {
            Some(((mac, message), n)) => Some((Envelope { mac, message }, n)),
            None => {
                proof {
                    lemma_unread::<(Mac, Message)>(b@.skip(pos as int));
                }
                None
            },
        }
    }
}

impl Wire for RootKey {
    open spec fn legal(v: Seq<u8>) -> bool {
        CipherKey::legal(v)
    }

    open spec fn sound(v: Seq<u8>) -> bool {
        true
    }

    open spec fn bytes(v: Seq<u8>) -> Seq<u8> {
        CipherKey::bytes(v)
    }

    proof fn lemma_prefix_free(v: Seq<u8>, w: Seq<u8>, r: Seq<u8>, s: Seq<u8>) {
        CipherKey::lemma_prefix_free(v, w, r, s);
    }

    proof fn lemma_own(&self) {
    }

    fn enc(&self, out: &mut Vec<u8>) {
        self.key.enc(out);
    }

    fn dec(b: &[u8], pos: usize) -> (r: Option<(RootKey, usize)>) {
        match CipherKey::dec(b, pos) {
            Some((key, n)) => Some((RootKey { key }, n)),
            None => {
                proof {
                    lemma_unread::<CipherKey>(b@.skip(pos as int));
                }
                None
            },
        }
    }
}

impl Wire for ChainKey {
    open spec fn legal(v: ChainKeyView) -> bool {
        <(MacKey, Counter)>::legal((v.key, v.idx))
    }

    open spec fn sound(v: ChainKeyView) -> bool {
        true
    }

    open spec fn bytes(v: ChainKeyView) -> Seq<u8> {
        <(MacKey, Counter)>::bytes((v.key, v.idx))
    }

    proof fn lemma_prefix_free(v: ChainKeyView, w: ChainKeyView, r: Seq<u8>, s: Seq<u8>) {
        <(MacKey, Counter)>::lemma_prefix_free((v.key, v.idx), (w.key, w.idx), r, s);
    }

    proof fn lemma_own(&self) {
    }

    fn enc(&self, out: &mut Vec<u8>) {
        (self.key, self.idx).enc(out);
    }

    fn dec(b: &[u8], pos: usize) -> (r: Option<(ChainKey, usize)>) {
        match <(MacKey, Counter)>::dec(b, pos) {
            Some(((key, idx), n)) => Some((ChainKey { key, idx }, n)),
            None => {
                proof {
                    lemma_unread::<(MacKey, Counter)>(b@.skip(pos as int));
                }
                None
            },
        }
    }
}

impl Wire for SendChain {
    open spec fn legal(v: SendChainView) -> bool {
        <(ChainKey, KeyPair)>::legal((v.chain_key, v.ratchet_key))
    }

    open spec fn sound(v: SendChainView) -> bool {
        v.ratchet_key.valid()
    }

    open spec fn bytes(v: SendChainView) -> Seq<u8> {
        <(ChainKey, KeyPair)>::bytes((v.chain_key, v.ratchet_key))
    }

    proof fn lemma_prefix_free(v: SendChainView, w: SendChainView, r: Seq<u8>, s: Seq<u8>) {
        <(ChainKey, KeyPair)>::lemma_prefix_free(
            (v.chain_key, v.ratchet_key),
            (w.chain_key, w.ratchet_key),
            r,
            s,
        );
    }

    proof fn lemma_own(&self) {
        (self.chain_key, self.ratchet_key).lemma_own();
    }

    fn enc(&self, out: &mut Vec<u8>) {
        (self.chain_key, self.ratchet_key).enc(out);
    }

    fn dec(b: &[u8], pos: usize) -> (r: Option<(SendChain, usize)>) {
        match <(ChainKey, KeyPair)>::dec(b, pos) {
            Some(((chain_key, ratchet_key), n)) => Some((SendChain { chain_key, ratchet_key }, n)),
            None => {
                proof {
                    lemma_unread::<(ChainKey, KeyPair)>(b@.skip(pos as int));
                }
                None
            },
        }
    }
}

impl Wire for RecvChain {
    open spec fn legal(v: RecvChainView) -> bool {
        <(ChainKey, PublicKey)>::legal((v.chain_key, v.ratchet_key))
    }

    open spec fn sound(v: RecvChainView) -> bool {
        true
    }

    open spec fn bytes(v: RecvChainView) -> Seq<u8> {
        <(ChainKey, PublicKey)>::bytes((v.chain_key, v.ratchet_key))
    }

    proof fn lemma_prefix_free(v: RecvChainView, w: RecvChainView, r: Seq<u8>, s: Seq<u8>) {
        <(ChainKey, PublicKey)>::lemma_prefix_free(
            (v.chain_key, v.ratchet_key),
            (w.chain_key, w.ratchet_key),
            r,
            s,
        );
    }

    proof fn lemma_own(&self) {
    }

    fn enc(&self, out: &mut Vec<u8>) {
        (self.chain_key, self.ratchet_key).enc(out);
    }

    fn dec(b: &[u8], pos: usize) -> (r: Option<(RecvChain, usize)>) {
        match <(ChainKey, PublicKey)>::dec(b, pos) {
            Some(((chain_key, ratchet_key), n)) => Some((RecvChain { chain_key, ratchet_key }, n)),
            None => {
                proof {
                    lemma_unread::<(ChainKey, PublicKey)>(b@.skip(pos as int));
                }
                None
            },
        }
    }
}

/// The parts of message keys in the order of their bytes.
pub type MessageKeysParts = (CipherKey, (MacKey, Counter));

/// The models of [`MessageKeysParts`].
pub open spec fn message_keys_parts(v: MessageKeysView) -> (Seq<u8>, (Seq<u8>, u32)) {
    (v.cipher_key, (v.mac_key, v.counter))
}

impl Wire for MessageKeys {
    open spec fn legal(v: MessageKeysView) -> bool {
        MessageKeysParts::legal(message_keys_parts(v))
    }

    open spec fn sound(v: MessageKeysView) -> bool {
        true
    }

    open spec fn bytes(v: MessageKeysView) -> Seq<u8> {
        MessageKeysParts::bytes(message_keys_parts(v))
    }

    proof fn lemma_prefix_free(v: MessageKeysView, w: MessageKeysView, r: Seq<u8>, s: Seq<u8>) {
        MessageKeysParts::lemma_prefix_free(message_keys_parts(v), message_keys_parts(w), r, s);
    }

    proof fn lemma_own(&self) {
    }

    fn enc(&self, out: &mut Vec<u8>) {
        (self.cipher_key, (self.mac_key, self.counter)).enc(out);
    }

    fn dec(b: &[u8], pos: usize) -> (r: Option<(MessageKeys, usize)>) {
        match MessageKeysParts::dec(b, pos) {
            Some(((cipher_key, (mac_key, counter)), n)) => Some(
                (MessageKeys { cipher_key, mac_key, counter }, n),
            ),
            None => {
                proof {
                    lemma_unread::<MessageKeysParts>(b@.skip(pos as int));
                }
                None
            },
        }
    }
}

/// The parts of a session state in the order of their bytes.
pub type StateParts = (List<RecvChain>, (SendChain, (RootKey, (Counter, List<MessageKeys>))));

/// The models of [`StateParts`].
pub open spec fn state_parts(v: SessionStateView) -> (
    Seq<RecvChainView>,
    (SendChainView, (Seq<u8>, (u32, Seq<MessageKeysView>))),
) {
    (v.recv_chains, (v.send_chain, (v.root_key, (v.prev_counter, v.skipped_msgkeys))))
}

impl Wire for SessionState {
    open spec fn legal(v: SessionStateView) -> bool {
        StateParts::legal(state_parts(v))
    }

    open spec fn sound(v: SessionStateView) -> bool {
        v.valid()
    }

    open spec fn bytes(v: SessionStateView) -> Seq<u8> {
        StateParts::bytes(state_parts(v))
    }

    proof fn lemma_prefix_free(v: SessionStateView, w: SessionStateView, r: Seq<u8>, s: Seq<u8>) {
        StateParts::lemma_prefix_free(state_parts(v), state_parts(w), r, s);
    }

    proof fn lemma_own(&self) {
        let skipped = (self.prev_counter, self.skipped_msgkeys);
        (self.recv_chains, (self.send_chain, (self.root_key, skipped))).lemma_own();
    }

    fn enc(&self, out: &mut Vec<u8>) {
        self.recv_chains.enc(out);
        self.send_chain.enc(out);
        self.root_key.enc(out);
        self.prev_counter.enc(out);
        self.skipped_msgkeys.enc(out);
        assert(out@ =~= old(out)@ + Self::bytes(self@));
    }

    fn dec(b: &[u8], pos: usize) -> (r: Option<(SessionState, usize)>) {
        match StateParts::dec(b, pos) {
            Some((parts, n)) => {
                let (recv_chains, (send_chain, (root_key, (prev_counter, skipped_msgkeys)))) =
                    parts;
                let state = SessionState {
                    recv_chains,
                    send_chain,
                    root_key,
                    prev_counter,
                    skipped_msgkeys,
                };
                Some((state, n))
            },
            None => {
                proof {
                    lemma_unread::<StateParts>(b@.skip(pos as int));
                }
                None
            },
        }
    }
}

impl Wire for Version {
    open spec fn legal(v: Version) -> bool {
        true
    }

    open spec fn sound(v: Version) -> bool {
        true
    }

    open spec fn bytes(v: Version) -> Seq<u8> {
        u8::bytes(1)
    }

    proof fn lemma_prefix_free(v: Version, w: Version, r: Seq<u8>, s: Seq<u8>) {
        u8::lemma_prefix_free(1, 1, r, s);
    }

    proof fn lemma_own(&self) {
    }

    fn enc(&self, out: &mut Vec<u8>) {
        1u8.enc(out);
    }

    fn dec(b: &[u8], pos: usize) -> (r: Option<(Version, usize)>) {
        match u8::dec(b, pos) {
            Some((tag, n)) => {
                if tag == 1 {
                    Some((Version::V1, n))
                } else {
                    proof {
                        assert forall|v: Version, rest: Seq<u8>|
                            b@.skip(pos as int) != #[trigger] (Self::bytes(v) + rest) by {
                            if b@.skip(pos as int) == Self::bytes(v) + rest {
                                u8::lemma_prefix_free(tag, 1, b@.skip(n as int), rest);
                            }
                        }
                    }
                    None
                }
            },
            None => {
                proof {
                    lemma_unread::<u8>(b@.skip(pos as int));
                }
                None
            },
        }
    }
}

/// The parts of a session in the order of their bytes.
pub type SessionParts = (
    Version,
    (IdentityKeyPair, (IdentityKey, (Maybe<(PreKeyId, PublicKey)>, List<SessionState>))),
);

/// The models of [`SessionParts`].
pub open spec fn session_parts(v: SessionView) -> (
    Version,
    (KeyPairView, (Seq<u8>, (Option<(u16, Seq<u8>)>, Seq<SessionStateView>))),
) {
    (v.version, (v.local_identity, (v.remote_identity, (v.pending_prekey, v.session_states))))
}

impl Wire for Session {
    open spec fn legal(v: SessionView) -> bool {
        SessionParts::legal(session_parts(v))
    }

    open spec fn sound(v: SessionView) -> bool {
        v.valid()
    }

    open spec fn bytes(v: SessionView) -> Seq<u8> {
        SessionParts::bytes(session_parts(v))
    }

    proof fn lemma_prefix_free(v: SessionView, w: SessionView, r: Seq<u8>, s: Seq<u8>) {
        SessionParts::lemma_prefix_free(session_parts(v), session_parts(w), r, s);
    }

    proof fn lemma_own(&self) {
        let states = (Maybe(self.pending_prekey), self.session_states);
        (self.version, (self.local_identity, (self.remote_identity, states))).lemma_own();
    }

    fn enc(&self, out: &mut Vec<u8>) {
        self.version.enc(out);
        self.local_identity.enc(out);
        self.remote_identity.enc(out);
        Maybe(self.pending_prekey).enc(out);
        self.session_states.enc(out);
        assert(out@ =~= old(out)@ + Self::bytes(self@));
    }

    fn dec(b: &[u8], pos: usize) -> (r: Option<(Session, usize)>) {
        match SessionParts::dec(b, pos) {
            Some((parts, n)) => {
                let (version, (local_identity, (remote_identity, (pending, session_states)))) =
                    parts;
                let session = Session {
                    version,
                    local_identity,
                    remote_identity,
                    pending_prekey: pending.0,
                    session_states,
                };
                Some((session, n))
            },
            None => {
                proof {
                    lemma_unread::<SessionParts>(b@.skip(pos as int));
                }
                None
            },
        }
    }
}

/// Writes a secret key behind what `out` holds.
pub fn enc_secret_key(x: &SecretKey, out: &mut Vec<u8>)
    ensures
        final(out)@ == old(out)@ + SecretKey::bytes(x@),
{
    x.enc(out)
}

/// Reads a secret key that starts at `pos`, and where it ends.
pub fn dec_secret_key(b: &[u8], pos: usize) -> (r: Option<(SecretKey, usize)>)
    requires
        pos <= b@.len(),
    ensures
        r matches Some((x, n)) ==> {
            &&& pos <= n <= b@.len()
            &&& SecretKey::legal(x@)
            &&& b@.skip(pos as int) == SecretKey::bytes(x@) + b@.skip(n as int)
        },
        r is None ==> forall|v: <SecretKey as View>::V, rest: Seq<u8>|
            SecretKey::legal(v) ==> b@.skip(pos as int) != #[trigger] (SecretKey::bytes(v) + rest),
        forall|x: SecretKey, rest: Seq<u8>|
            b@.skip(pos as int) == #[trigger] (SecretKey::bytes(x@) + rest) ==> {
                r matches Some((y, n)) && y@ == x@ && b@.skip(n as int) == rest
            },
{
    let r = SecretKey::dec(b, pos);
    proof {
        assert forall|x: SecretKey, rest: Seq<u8>|
            b@.skip(pos as int) == #[trigger] (SecretKey::bytes(x@)
            + rest) implies (r matches Some((y, n)) && y@ == x@ && b@.skip(n as int) == rest) by {
            x.lemma_own();
            lemma_found_again::<SecretKey>(b@, pos as int, r, x@, rest);
        }
    }
    r
}

/// Writes an identity behind what `out` holds.
pub fn enc_identity_key(x: &IdentityKey, out: &mut Vec<u8>)
    ensures
        final(out)@ == old(out)@ + IdentityKey::bytes(x@),
{
    x.enc(out)
}

/// Reads an identity that starts at `pos`, and where it ends.
pub fn dec_identity_key(b: &[u8], pos: usize) -> (r: Option<(IdentityKey, usize)>)
    requires
        pos <= b@.len(),
    ensures
        r matches Some((x, n)) ==> {
            &&& pos <= n <= b@.len()
            &&& IdentityKey::legal(x@)
            &&& b@.skip(pos as int) == IdentityKey::bytes(x@) + b@.skip(n as int)
        },
        r is None ==> forall|v: <IdentityKey as View>::V, rest: Seq<u8>|
            IdentityKey::legal(v) ==> b@.skip(pos as int)
                != #[trigger] (IdentityKey::bytes(v) + rest),
        forall|x: IdentityKey, rest: Seq<u8>|
            b@.skip(pos as int) == #[trigger] (IdentityKey::bytes(x@) + rest) ==> {
                r matches Some((y, n)) && y@ == x@ && b@.skip(n as int) == rest
            },
{
    let r = IdentityKey::dec(b, pos);
    proof {
        assert forall|x: IdentityKey, rest: Seq<u8>|
            b@.skip(pos as int) == #[trigger] (IdentityKey::bytes(x@)
            + rest) implies (r matches Some((y, n)) && y@ == x@ && b@.skip(n as int) == rest) by {
            x.lemma_own();
            lemma_found_again::<IdentityKey>(b@, pos as int, r, x@, rest);
        }
    }
    r
}

/// Writes the key pair of an identity behind what `out` holds.
pub fn enc_identity_keypair(x: &IdentityKeyPair, out: &mut Vec<u8>)
    ensures
        final(out)@ == old(out)@ + IdentityKeyPair::bytes(x@),
{
    x.enc(out)
}

/// Reads the key pair of an identity that starts at `pos`, and where it ends.
pub fn dec_identity_keypair(b: &[u8], pos: usize) -> (r: Option<(IdentityKeyPair, usize)>)
    requires
        pos <= b@.len(),
    ensures
        r matches Some((x, n)) ==> {
            &&& pos <= n <= b@.len()
            &&& IdentityKeyPair::legal(x@)
            &&& b@.skip(pos as int) == IdentityKeyPair::bytes(x@) + b@.skip(n as int)
        },
        r is None ==> forall|v: <IdentityKeyPair as View>::V, rest: Seq<u8>|
            IdentityKeyPair::legal(v) ==> b@.skip(pos as int)
                != #[trigger] (IdentityKeyPair::bytes(v) + rest),
        forall|x: IdentityKeyPair, rest: Seq<u8>|
            x@.valid() && b@.skip(pos as int)
                == #[trigger] (IdentityKeyPair::bytes(x@) + rest) ==> {
                r matches Some((y, n)) && y@ == x@ && b@.skip(n as int) == rest
            },
{
    let r = IdentityKeyPair::dec(b, pos);
    proof {
        assert forall|x: IdentityKeyPair, rest: Seq<u8>|
            x@.valid() && b@.skip(pos as int) == #[trigger] (IdentityKeyPair::bytes(x@)
            + rest) implies (r matches Some((y, n)) && y@ == x@ && b@.skip(n as int) == rest) by {
            x.lemma_own();
            lemma_found_again::<IdentityKeyPair>(b@, pos as int, r, x@, rest);
        }
    }
    r
}

/// Writes a prekey behind what `out` holds.
pub fn enc_prekey(x: &PreKey, out: &mut Vec<u8>)
    ensures
        final(out)@ == old(out)@ + PreKey::bytes(x@),
{
    x.enc(out)
}

/// Reads a prekey that starts at `pos`, and where it ends.
pub fn dec_prekey(b: &[u8], pos: usize) -> (r: Option<(PreKey, usize)>)
    requires
        pos <= b@.len(),
    ensures
        r matches Some((x, n)) ==> {
            &&& pos <= n <= b@.len()
            &&& PreKey::legal(x@)
            &&& b@.skip(pos as int) == PreKey::bytes(x@) + b@.skip(n as int)
        },
        r is None ==> forall|v: <PreKey as View>::V, rest: Seq<u8>|
            PreKey::legal(v) ==> b@.skip(pos as int) != #[trigger] (PreKey::bytes(v) + rest),
        forall|x: PreKey, rest: Seq<u8>|
            x@.key_pair.valid() && b@.skip(pos as int)
                == #[trigger] (PreKey::bytes(x@) + rest) ==> {
                r matches Some((y, n)) && y@ == x@ && b@.skip(n as int) == rest
            },
{
    let r = PreKey::dec(b, pos);
    proof {
        assert forall|x: PreKey, rest: Seq<u8>|
            x@.key_pair.valid() && b@.skip(pos as int) == #[trigger] (PreKey::bytes(x@)
            + rest) implies (r matches Some((y, n)) && y@ == x@ && b@.skip(n as int) == rest) by {
            x.lemma_own();
            lemma_found_again::<PreKey>(b@, pos as int, r, x@, rest);
        }
    }
    r
}

/// Writes a prekey bundle behind what `out` holds.
pub fn enc_prekey_bundle(x: &PreKeyBundle, out: &mut Vec<u8>)
    ensures
        final(out)@ == old(out)@ + PreKeyBundle::bytes(x@),
{
    x.enc(out)
}

/// Reads a prekey bundle that starts at `pos`, and where it ends.
pub fn dec_prekey_bundle(b: &[u8], pos: usize) -> (r: Option<(PreKeyBundle, usize)>)
    requires
        pos <= b@.len(),
    ensures
        r matches Some((x, n)) ==> {
            &&& pos <= n <= b@.len()
            &&& PreKeyBundle::legal(x@)
            &&& b@.skip(pos as int) == PreKeyBundle::bytes(x@) + b@.skip(n as int)
        },
        r is None ==> forall|v: <PreKeyBundle as View>::V, rest: Seq<u8>|
            PreKeyBundle::legal(v) ==> b@.skip(pos as int)
                != #[trigger] (PreKeyBundle::bytes(v) + rest),
        forall|x: PreKeyBundle, rest: Seq<u8>|
            b@.skip(pos as int) == #[trigger] (PreKeyBundle::bytes(x@) + rest) ==> {
                r matches Some((y, n)) && y@ == x@ && b@.skip(n as int) == rest
            },
{
    let r = PreKeyBundle::dec(b, pos);
    proof {
        assert forall|x: PreKeyBundle, rest: Seq<u8>|
            b@.skip(pos as int) == #[trigger] (PreKeyBundle::bytes(x@)
            + rest) implies (r matches Some((y, n)) && y@ == x@ && b@.skip(n as int) == rest) by {
            x.lemma_own();
            lemma_found_again::<PreKeyBundle>(b@, pos as int, r, x@, rest);
        }
    }
    r
}

/// Writes an envelope behind what `out` holds.
pub fn enc_envelope(x: &Envelope, out: &mut Vec<u8>)
    ensures
        final(out)@ == old(out)@ + Envelope::bytes(x@),
{
    x.enc(out)
}

/// Reads an envelope that starts at `pos`, and where it ends.
pub fn dec_envelope(b: &[u8], pos: usize) -> (r: Option<(Envelope, usize)>)
    requires
        pos <= b@.len(),
    ensures
        r matches Some((x, n)) ==> {
            &&& pos <= n <= b@.len()
            &&& Envelope::legal(x@)
            &&& b@.skip(pos as int) == Envelope::bytes(x@) + b@.skip(n as int)
        },
        r is None ==> forall|v: <Envelope as View>::V, rest: Seq<u8>|
            Envelope::legal(v) ==> b@.skip(pos as int) != #[trigger] (Envelope::bytes(v) + rest),
        forall|x: Envelope, rest: Seq<u8>|
            x@.message.cipher().cipher_text.len() <= MAX_TEXT_LEN && b@.skip(pos as int)
                == #[trigger] (Envelope::bytes(x@) + rest) ==> {
                r matches Some((y, n)) && y@ == x@ && b@.skip(n as int) == rest
            },
{
    let r = Envelope::dec(b, pos);
    proof {
        assert forall|x: Envelope, rest: Seq<u8>|
            x@.message.cipher().cipher_text.len() <= MAX_TEXT_LEN && b@.skip(pos as int)
                == #[trigger] (Envelope::bytes(x@)
            + rest) implies (r matches Some((y, n)) && y@ == x@ && b@.skip(n as int) == rest) by {
            x.lemma_own();
            lemma_found_again::<Envelope>(b@, pos as int, r, x@, rest);
        }
    }
    r
}

/// Writes a session behind what `out` holds.
pub fn enc_session(x: &Session, out: &mut Vec<u8>)
    ensures
        final(out)@ == old(out)@ + Session::bytes(x@),
{
    x.enc(out)
}

/// Reads a session that starts at `pos`, and where it ends.
pub fn dec_session(b: &[u8], pos: usize) -> (r: Option<(Session, usize)>)
    requires
        pos <= b@.len(),
    ensures
        r matches Some((x, n)) ==> {
            &&& pos <= n <= b@.len()
            &&& Session::legal(x@)
            &&& b@.skip(pos as int) == Session::bytes(x@) + b@.skip(n as int)
        },
        r is None ==> forall|v: <Session as View>::V, rest: Seq<u8>|
            Session::legal(v) ==> b@.skip(pos as int) != #[trigger] (Session::bytes(v) + rest),
        forall|x: Session, rest: Seq<u8>|
            x@.valid() && b@.skip(pos as int)
                == #[trigger] (Session::bytes(x@) + rest) ==> {
                r matches Some((y, n)) && y@ == x@ && b@.skip(n as int) == rest
            },
{
    let r = Session::dec(b, pos);
    proof {
        assert forall|x: Session, rest: Seq<u8>|
            x@.valid() && b@.skip(pos as int) == #[trigger] (Session::bytes(x@)
            + rest) implies (r matches Some((y, n)) && y@ == x@ && b@.skip(n as int) == rest) by {
            x.lemma_own();
            lemma_found_again::<Session>(b@, pos as int, r, x@, rest);
        }
    }
    r
}

} // verus!
