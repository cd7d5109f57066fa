//! The messages that peers exchange.
use vstd::prelude::*;

use crate::derived::{Mac, MacKey, Nonce};
use crate::keys::{IdentityKey, PreKeyId, PublicKey};
#[allow(unused_imports)]
use crate::primitives::{hmac_sha256, MAX_TEXT_LEN};
#[allow(unused_imports)]
use crate::wire::{be32, decode, encode, Wire};

verus! {

/// The position of a message in its chain.
#[derive(Clone, Copy, Debug, PartialEq, Eq, Structural)]
pub struct Counter {
    pub value: u32,
}

impl View for Counter {
    type V = u32;

    open spec fn view(&self) -> u32 {
        self.value
    }
}

/// The counter after `c`. Behind the last one comes zero again.
pub open spec fn next_counter(c: u32) -> u32 {
    if c == u32::MAX {
        0
    } else {
        (c + 1) as u32
    }
}

/// The nonce under which the message at a position is encrypted.
pub open spec fn counter_nonce(c: u32) -> Seq<u8> {
    be32(c) + seq![0u8, 0u8, 0u8, 0u8]
}

impl Counter {
    pub fn zero() -> (r: Counter)
        ensures
            r@ == 0,
    {
        Counter { value: 0 }
    }

    pub fn value(&self) -> (r: u32)
        ensures
            r == self@,
    {
        self.value
    }

    pub fn next(&self) -> (r: Counter)
        ensures
            r@ == next_counter(self@),
    {
        if self.value == u32::MAX {
            Counter { value: 0 }
        } else {
            Counter { value: self.value + 1 }
        }
    }

    pub fn as_nonce(&self) -> (r: Nonce)
        ensures
            r@ == counter_nonce(self@),
    {
        let x: u32 = self.value;
        let r = Nonce {
            bytes: [
                (x / 0x1000000) as u8,
                (x / 0x10000 % 0x100) as u8,
                (x / 0x100 % 0x100) as u8,
                (x % 0x100) as u8,
                0,
                0,
                0,
                0,
            ],
        };
        assert(r@ =~= counter_nonce(x));
        r
    }
}

/// An encrypted text with what its receiver needs to find the key.
pub struct CipherMessage {
    ratchet_key: PublicKey,
    counter: Counter,
    prev_counter: Counter,
    cipher_text: Vec<u8>,
}

/// The model of [`CipherMessage`].
#[verifier::ext_equal]
pub struct CipherMessageView {
    pub ratchet_key: Seq<u8>,
    pub counter: u32,
    pub prev_counter: u32,
    pub cipher_text: Seq<u8>,
}

impl View for CipherMessage {
    type V = CipherMessageView;

    closed spec fn view(&self) -> CipherMessageView {
        CipherMessageView {
            ratchet_key: self.ratchet_key@,
            counter: self.counter@,
            prev_counter: self.prev_counter@,
            cipher_text: self.cipher_text@,
        }
    }
}

impl CipherMessage {
    #[verifier::type_invariant]
    spec fn fits(&self) -> bool {
        self.cipher_text@.len() <= MAX_TEXT_LEN
    }

    /// What holds of every message.
    pub proof fn lemma_shape(&self)
        ensures
            self@.ratchet_key.len() == 32,
            self@.cipher_text.len() <= usize::MAX,
    {
        vstd::std_specs::vec::axiom_spec_len(&self.cipher_text);
    }

    pub fn new(
        ratchet_key: PublicKey,
        counter: Counter,
        prev_counter: Counter,
        cipher_text: Vec<u8>,
    ) -> (r: CipherMessage)
        requires
            cipher_text@.len() <= MAX_TEXT_LEN,
        ensures
            r@ == (CipherMessageView {
                ratchet_key: ratchet_key@,
                counter: counter@,
                prev_counter: prev_counter@,
                cipher_text: cipher_text@,
            }),
    {
        CipherMessage { ratchet_key, counter, prev_counter, cipher_text }
    }

    /// The sender's ratchet key.
    pub fn ratchet_key(&self) -> (r: &PublicKey)
        ensures
            r@ == self@.ratchet_key,
    {
        &self.ratchet_key
    }

    /// The position in the sender's chain.
    pub fn counter(&self) -> (r: Counter)
        ensures
            r@ == self@.counter,
    {
        self.counter
    }

    /// The length of the sender's chain before this one.
    pub fn prev_counter(&self) -> (r: Counter)
        ensures
            r@ == self@.prev_counter,
    {
        self.prev_counter
    }

    pub fn cipher_text(&self) -> (r: &Vec<u8>)
        ensures
            r@ == self@.cipher_text,
            r@.len() <= MAX_TEXT_LEN,
    {
        proof {
            use_type_invariant(self);
        }
        &self.cipher_text
    }
}

/// A message that also carries what its receiver needs to start a session.
pub struct PreKeyMessage {
    pub prekey_id: PreKeyId,
    pub base_key: PublicKey,
    pub identity_key: IdentityKey,
    pub message: CipherMessage,
}

/// The model of [`PreKeyMessage`].
#[verifier::ext_equal]
pub struct PreKeyMessageView {
    pub prekey_id: u16,
    pub base_key: Seq<u8>,
    pub identity_key: Seq<u8>,
    pub message: CipherMessageView,
}

impl View for PreKeyMessage {
    type V = PreKeyMessageView;

    open spec fn view(&self) -> PreKeyMessageView {
        PreKeyMessageView {
            prekey_id: self.prekey_id@,
            base_key: self.base_key@,
            identity_key: self.identity_key@,
            message: self.message@,
        }
    }
}

/// What an envelope holds.
pub enum Message {
    Plain(CipherMessage),
    Keyed(PreKeyMessage),
}

/// The model of [`Message`].
#[verifier::ext_equal]
pub enum MessageView {
    Plain(CipherMessageView),
    Keyed(PreKeyMessageView),
}

impl MessageView {
    /// The encrypted part.
    pub open spec fn cipher(self) -> CipherMessageView {
        match self {
            MessageView::Plain(m) => m,
            MessageView::Keyed(m) => m.message,
        }
    }
}

impl View for Message {
    type V = MessageView;

    open spec fn view(&self) -> MessageView {
        match self {
            Message::Plain(m) => MessageView::Plain(m@),
            Message::Keyed(m) => MessageView::Keyed(m@),
        }
    }
}

/// A message with its authentication code.
pub struct Envelope {
    pub mac: Mac,
    pub message: Message,
}

/// The model of [`Envelope`].
#[verifier::ext_equal]
pub struct EnvelopeView {
    pub mac: Seq<u8>,
    pub message: MessageView,
}

impl EnvelopeView {
    /// A message sealed with an authentication key.
    pub open spec fn seal(mac_key: Seq<u8>, message: MessageView) -> EnvelopeView {
        EnvelopeView { mac: hmac_sha256(mac_key, Message::bytes(message)), message }
    }

    /// Whether the code is that of the message under `mac_key`.
    pub open spec fn authentic(self, mac_key: Seq<u8>) -> bool {
        self.mac == hmac_sha256(mac_key, Message::bytes(self.message))
    }
}

impl View for Envelope {
    type V = EnvelopeView;

    open spec fn view(&self) -> EnvelopeView {
        EnvelopeView { mac: self.mac@, message: self.message@ }
    }
}

impl Envelope {
    /// Seals a message.
    pub fn new(mac_key: &MacKey, message: Message) -> (r: Envelope)
        ensures
            r@ == EnvelopeView::seal(mac_key@, message@),
    {
        let b = encode(&message);
        Envelope { mac: mac_key.sign(b.as_slice()), message }
    }

    /// Whether the message was sealed with `mac_key`.
    pub fn verify(&self, mac_key: &MacKey) -> (r: bool)
        ensures
            r == self@.authentic(mac_key@),
    {
        let b = encode(&self.message);
        mac_key.verify(&self.mac, b.as_slice())
    }

    pub fn message(&self) -> (r: &Message)
        ensures
            r@ == self@.message,
    {
        &self.message
    }

    /// The envelope as bytes.
    pub fn encode(&self) -> (r: Vec<u8>)
        ensures
            r@ == Envelope::bytes(self@),
            Envelope::legal(self@),
    {
        let _text = match &self.message {
            Message::Plain(m) => m.cipher_text(),
            Message::Keyed(m) => m.message.cipher_text(),
        };
        encode(self)
    }

    /// The envelope that some bytes stand for. What was encoded is decoded to the
    /// same envelope.
    pub fn decode(b: &[u8]) -> (r: Option<Envelope>)
        ensures
            r matches Some(e) ==> Envelope::legal(e@) && b@ == Envelope::bytes(e@),
            forall|v: EnvelopeView|
                Envelope::legal(v) && b@ == #[trigger] Envelope::bytes(v) ==> (r matches Some(e)
                    && e@ == v),
            forall|x: Envelope|
                x@.message.cipher().cipher_text.len() <= MAX_TEXT_LEN && b@
                    == #[trigger] Envelope::bytes(x@) ==> (r matches Some(e) && e@ == x@),
    {
        proof {
            assert forall|x: Envelope|
                x@.message.cipher().cipher_text.len() <= MAX_TEXT_LEN && b@
                    == #[trigger] Envelope::bytes(x@) implies Envelope::legal(x@) by {
                x.lemma_own();
            }
        }
        decode(b)
    }
}

/// A sealed message is authentic under the key that sealed it.
pub proof fn law_sealed_is_authentic(mac_key: Seq<u8>, message: MessageView)
    ensures
        EnvelopeView::seal(mac_key, message).authentic(mac_key),
{
}

} // verus!
