//! What is written as bytes is read back.
use vstd::prelude::*;

use crate::derived::{CipherKey, Mac, MacKey};
#[allow(unused_imports)]
use crate::keys::{
    IdentityKey, IdentityKeyPair, KeyPair, KeyPairView, PreKey, PreKeyBundle, PreKeyBundleView,
    PreKeyId, PreKeyView, PublicKey, SecretKey,
};
#[allow(unused_imports)]
use crate::list::List;
#[allow(unused_imports)]
use crate::message::{
    CipherMessage, CipherMessageView, Counter, Envelope, EnvelopeView, Message, MessageView,
    PreKeyMessage, PreKeyMessageView,
};
#[allow(unused_imports)]
use crate::primitives::MAX_TEXT_LEN;
#[allow(unused_imports)]
use crate::session::chain::{
    ChainKey, ChainKeyView, MessageKeys, MessageKeysView, RecvChain, RecvChainView, RootKey,
    SendChain, SendChainView,
};
#[allow(unused_imports)]
use crate::session::state::{SessionState, SessionStateView};
use crate::session::{Session, SessionView, Version};
#[allow(unused_imports)]
use crate::wire::{be16, be32, be64, items_bytes, Maybe, Wire};

verus! {

// Numbers

/// Two bytes are the places of a number to the base 256, the highest first.
pub proof fn law_two_bytes(x: u16)
    ensures
        be16(x).len() == 2,
        x == be16(x)[0] * 0x100 + be16(x)[1],
{
}

/// Four bytes are the places of a number to the base 256, the highest first.
pub proof fn law_four_bytes(x: u32)
    ensures
        be32(x).len() == 4,
        x == be32(x)[0] * 0x1000000 + be32(x)[1] * 0x10000 + be32(x)[2] * 0x100 + be32(x)[3],
{
    let a = x / 0x1000000;
    let b = x / 0x10000 % 0x100;
    let c = x / 0x100 % 0x100;
    let d = x % 0x100;
    assert(x == (x / 0x1000000) * 0x1000000 + (x / 0x10000 % 0x100) * 0x10000 + (x / 0x100
        % 0x100) * 0x100 + x % 0x100 && x / 0x1000000 < 0x100) by (bit_vector);
    assert(be32(x)[0] == a && be32(x)[1] == b && be32(x)[2] == c && be32(x)[3] == d);
}

/// Eight bytes are the four bytes of either half of a number, the high one first.
pub proof fn law_eight_bytes(x: u64)
    ensures
        be64(x).len() == 8,
        exists|high: u32, low: u32|
            x == high * 0x1_0000_0000 + low && be64(x) == #[trigger] be32(high) + #[trigger] be32(
                low,
            ),
{
    let high = (x / 0x1_0000_0000) as u32;
    let low = (x % 0x1_0000_0000) as u32;
    assert(x == high * 0x1_0000_0000 + low);
    assert(be64(x) == be32(high) + be32(low));
}

/// Items are written one behind another.
pub proof fn law_items<T: Wire>(s: Seq<T::V>, x: T::V)
    ensures
        items_bytes::<T>(Seq::empty()) == Seq::<u8>::empty(),
        items_bytes::<T>(seq![x] + s) == T::bytes(x) + items_bytes::<T>(s),
{
    assert((seq![x] + s).drop_first() =~= s);
}

// Which values have a representation

/// The basic values that have a representation: all numbers, all strings of 32 bytes,
/// and all strings that a machine can count.
pub proof fn law_basic_values(a: u8, b: u16, c: u32, d: u64, e: Seq<u8>)
    ensures
        u8::legal(a),
        u16::legal(b),
        u32::legal(c),
        u64::legal(d),
        <[u8; 32]>::legal(e) <==> e.len() == 32,
        Vec::<u8>::legal(e) <==> e.len() <= usize::MAX,
{
}

/// Pairs, options and lists have a representation exactly where their parts have one.
pub proof fn law_composed_values<A: Wire, B: Wire>(a: A::V, b: B::V, s: Seq<A::V>)
    ensures
        <(A, B)>::legal((a, b)) <==> A::legal(a) && B::legal(b),
        Maybe::<A>::legal(None),
        Maybe::<A>::legal(Some(a)) <==> A::legal(a),
        List::<A>::legal(s) <==> s.len() <= usize::MAX && forall|i: int|
            0 <= i < s.len() ==> A::legal(#[trigger] s[i]),
{
}

/// All keys, codes and numbers have a representation; of key pairs, those whose public
/// key is that of the secret key.
pub proof fn law_written_keys(key: Seq<u8>, id: u16, c: u32, kp: KeyPairView)
    ensures
        PublicKey::legal(key) <==> key.len() == 32,
        SecretKey::legal(key) <==> key.len() == 32,
        CipherKey::legal(key) <==> key.len() == 32,
        MacKey::legal(key) <==> key.len() == 32,
        Mac::legal(key) <==> key.len() == 32,
        RootKey::legal(key) <==> key.len() == 32,
        IdentityKey::legal(key) <==> key.len() == 32,
        PreKeyId::legal(id),
        Counter::legal(c),
        KeyPair::legal(kp) <==> kp.valid(),
        IdentityKeyPair::legal(kp) <==> kp.valid(),
{
}

/// Prekeys have a representation whatever their number is, and so do bundles whatever
/// their keys are.
pub proof fn law_written_prekeys(k: PreKeyView, b: PreKeyBundleView)
    ensures
        PreKey::legal(k) <==> k.key_pair.valid(),
        PreKeyBundle::legal(b) <==> b.public_key.len() == 32 && b.identity_key.len() == 32,
{
}

/// All messages have a representation whose text the cipher can cover.
pub proof fn law_written_messages(c: CipherMessageView, k: PreKeyMessageView, e: EnvelopeView)
    ensures
        MAX_TEXT_LEN == 64 * 0xFFFF_FFFF,
        CipherMessage::legal(c) <==> c.ratchet_key.len() == 32 && c.cipher_text.len() <= usize::MAX
            && c.cipher_text.len() <= MAX_TEXT_LEN,
        PreKeyMessage::legal(k) <==> k.base_key.len() == 32 && k.identity_key.len() == 32
            && k.message.ratchet_key.len() == 32 && k.message.cipher_text.len() <= usize::MAX
            && k.message.cipher_text.len() <= MAX_TEXT_LEN,
        Message::legal(MessageView::Plain(c)) <==> CipherMessage::legal(c),
        Message::legal(MessageView::Keyed(k)) <==> PreKeyMessage::legal(k),
        Envelope::legal(e) <==> e.mac.len() == 32 && Message::legal(e.message),
{
}

/// All chains and message keys have a representation, whatever their position is.
pub proof fn law_written_chains(
    ck: ChainKeyView,
    send: SendChainView,
    recv: RecvChainView,
    mk: MessageKeysView,
)
    ensures
        ChainKey::legal(ck) <==> ck.key.len() == 32,
        SendChain::legal(send) <==> send.chain_key.key.len() == 32 && send.ratchet_key.valid(),
        RecvChain::legal(recv) <==> recv.chain_key.key.len() == 32 && recv.ratchet_key.len() == 32,
        MessageKeys::legal(mk) <==> mk.cipher_key.len() == 32 && mk.mac_key.len() == 32,
{
}

/// All states and sessions have a representation whose key pairs are such.
pub proof fn law_written_sessions(t: SessionStateView, s: SessionView)
    ensures
        SessionState::legal(t) <==> {
            &&& t.recv_chains.len() <= usize::MAX
            &&& forall|i: int|
                0 <= i < t.recv_chains.len() ==> RecvChain::legal(#[trigger] t.recv_chains[i])
            &&& SendChain::legal(t.send_chain)
            &&& t.root_key.len() == 32
            &&& t.skipped_msgkeys.len() <= usize::MAX
            &&& forall|i: int|
                0 <= i < t.skipped_msgkeys.len() ==> MessageKeys::legal(
                    #[trigger] t.skipped_msgkeys[i],
                )
        },
        Version::legal(s.version),
        Session::legal(s) <==> {
            &&& s.local_identity.valid()
            &&& s.remote_identity.len() == 32
            &&& s.pending_prekey matches Some(p) ==> p.1.len() == 32
            &&& s.session_states.len() <= usize::MAX
            &&& forall|i: int|
                0 <= i < s.session_states.len() ==> SessionState::legal(
                    #[trigger] s.session_states[i],
                )
        },
{
    let pending = s.pending_prekey;
    assert(Maybe::<(PreKeyId, PublicKey)>::legal(pending) <==> (pending matches Some(p)
        ==> p.1.len() == 32));
}

// What is read back

/// Where bytes start with the representation of a value, nothing else can be read from
/// them, and nothing else is left behind it.
pub proof fn law_read_back<T: Wire>(v: T::V, rest: Seq<u8>, read: T::V, left: Seq<u8>)
    requires
        T::legal(v),
        T::legal(read),
        T::bytes(v) + rest == T::bytes(read) + left,
    ensures
        read == v,
        left == rest,
{
    T::lemma_prefix_free(v, read, rest, left);
}

/// Every key, identity and bundle has a representation, without a side condition; so
/// has every key pair, identity and prekey whose public key is that of the secret key.
pub proof fn law_every_key_is_written(
    secret: SecretKey,
    ident: IdentityKey,
    bundle: PreKeyBundle,
    idents: IdentityKeyPair,
    prekey: PreKey,
)
    ensures
        SecretKey::legal(secret@),
        IdentityKey::legal(ident@),
        PreKeyBundle::legal(bundle@),
        idents@.valid() ==> IdentityKeyPair::legal(idents@),
        prekey@.key_pair.valid() ==> PreKey::legal(prekey@),
{
}

/// Every envelope has a representation whose text the cipher can cover, and every
/// session whose key pairs are such.
pub proof fn law_every_message_is_written(env: Envelope, s: Session)
    ensures
        env@.message.cipher().cipher_text.len() <= MAX_TEXT_LEN ==> Envelope::legal(env@),
        s@.valid() ==> Session::legal(s@),
{
    if env@.message.cipher().cipher_text.len() <= MAX_TEXT_LEN {
        env.lemma_own();
    }
    if s@.valid() {
        s.lemma_own();
    }
}

// Where each part stands

/// Numbers are written highest byte first, keys and codes as they are, and other strings
/// behind their length.
pub proof fn law_basic_bytes(a: u8, b: u16, c: u32, d: u64, e: Seq<u8>, kp: KeyPairView)
    ensures
        u8::bytes(a) == seq![a],
        u16::bytes(b) == be16(b),
        u32::bytes(c) == be32(c),
        u64::bytes(d) == be64(d),
        <[u8; 32]>::bytes(e) == e,
        Vec::<u8>::bytes(e) == be64(e.len() as u64) + e,
        PublicKey::bytes(e) == e,
        SecretKey::bytes(e) == e,
        CipherKey::bytes(e) == e,
        MacKey::bytes(e) == e,
        Mac::bytes(e) == e,
        RootKey::bytes(e) == e,
        IdentityKey::bytes(e) == e,
        PreKeyId::bytes(b) == be16(b),
        Counter::bytes(c) == be32(c),
        KeyPair::bytes(kp) == kp.secret,
        IdentityKeyPair::bytes(kp) == kp.secret,
        Version::bytes(Version::V1) == seq![1u8],
{
}

/// The parts of pairs and lists are written one behind another; an option has a tag.
pub proof fn law_composed_bytes<A: Wire, B: Wire>(a: A::V, b: B::V, s: Seq<A::V>)
    ensures
        <(A, B)>::bytes((a, b)) == A::bytes(a) + B::bytes(b),
        Maybe::<A>::bytes(None) == seq![0u8],
        Maybe::<A>::bytes(Some(a)) == seq![1u8] + A::bytes(a),
        List::<A>::bytes(s) == be64(s.len() as u64) + items_bytes::<A>(s),
{
}

/// A bundle is written as its number, the public key of the prekey, and the identity.
pub proof fn law_bundle_bytes(b: PreKeyBundleView, k: PreKeyView)
    ensures
        PreKeyBundle::bytes(b) == be16(b.prekey_id) + (b.public_key + b.identity_key),
        PreKey::bytes(k) == be16(k.key_id) + k.key_pair.secret,
{
}

/// A message is written as a tag, what names a prekey, the ratchet key, the position,
/// the length of the chain before, and the counted cipher text; the code of an envelope
/// stands before its message. So the code covers all of these.
pub proof fn law_message_bytes(c: CipherMessageView, k: PreKeyMessageView, e: EnvelopeView)
    ensures
        CipherMessage::bytes(c) == c.ratchet_key + (be32(c.counter) + (be32(c.prev_counter) + (
        be64(c.cipher_text.len() as u64) + c.cipher_text))),
        PreKeyMessage::bytes(k) == be16(k.prekey_id) + (k.base_key + (k.identity_key
            + CipherMessage::bytes(k.message))),
        Message::bytes(MessageView::Plain(c)) == seq![1u8] + CipherMessage::bytes(c),
        Message::bytes(MessageView::Keyed(k)) == seq![2u8] + PreKeyMessage::bytes(k),
        Envelope::bytes(e) == e.mac + Message::bytes(e.message),
{
}

/// A session is written field by field.
pub proof fn law_session_bytes(s: SessionView, t: SessionStateView)
    ensures
        SessionState::bytes(t) == List::<RecvChain>::bytes(t.recv_chains) + (SendChain::bytes(
            t.send_chain,
        ) + (t.root_key + (be32(t.prev_counter) + List::<MessageKeys>::bytes(t.skipped_msgkeys)))),
        Session::bytes(s) == seq![1u8] + (s.local_identity.secret + (s.remote_identity + ((
        match s.pending_prekey {
            None => seq![0u8],
            Some(p) => seq![1u8] + (be16(p.0) + p.1),
        }) + List::<SessionState>::bytes(s.session_states)))),
        List::<SessionState>::bytes(s.session_states) == be64(s.session_states.len() as u64)
            + items_bytes::<SessionState>(s.session_states),
        List::<RecvChain>::bytes(t.recv_chains) == be64(t.recv_chains.len() as u64)
            + items_bytes::<RecvChain>(t.recv_chains),
        List::<MessageKeys>::bytes(t.skipped_msgkeys) == be64(t.skipped_msgkeys.len() as u64)
            + items_bytes::<MessageKeys>(t.skipped_msgkeys),
{
}

/// Chains and message keys are written field by field.
pub proof fn law_chain_bytes(
    ck: ChainKeyView,
    send: SendChainView,
    recv: RecvChainView,
    mk: MessageKeysView,
)
    ensures
        ChainKey::bytes(ck) == ck.key + be32(ck.idx),
        SendChain::bytes(send) == (send.chain_key.key + be32(send.chain_key.idx))
            + send.ratchet_key.secret,
        RecvChain::bytes(recv) == (recv.chain_key.key + be32(recv.chain_key.idx))
            + recv.ratchet_key,
        MessageKeys::bytes(mk) == mk.cipher_key + (mk.mac_key + be32(mk.counter)),
{
}

} // verus!
