//! The model of a value holds the models of all its parts.
use vstd::prelude::*;

use crate::derived::{CipherKey, DerivedSecrets, Mac, MacKey, Nonce};
use crate::keys::{
    IdentityKey, IdentityKeyPair, KeyPair, PreKey, PreKeyBundle, PreKeyId, PublicKey, SecretKey,
};
use crate::message::{Counter, Envelope, Message, MessageView, PreKeyMessage};
use crate::session::chain::{ChainKey, MessageKeys, RecvChain, RootKey, SendChain};
use crate::session::error::DecryptError;
use crate::session::state::{text_of, SessionState};
use crate::session::Session;
#[allow(unused_imports)]
use vstd::std_specs::cmp::PartialEqSpec;

verus! {

/// The models of keys, codes and nonces are their bytes.
pub proof fn law_models_of_bytes(
    a: Nonce,
    b: CipherKey,
    c: Mac,
    d: MacKey,
    e: PublicKey,
    f: SecretKey,
)
    ensures
        a@ == a.bytes@,
        b@ == b.bytes@,
        c@ == c.bytes@,
        d@ == d.bytes@,
        e@ == e.bytes@,
        f@ == f.bytes@,
        a@.len() == 8,
        b@.len() == 32,
        c@.len() == 32,
        d@.len() == 32,
        e@.len() == 32,
        f@.len() == 32,
{
}

/// Public keys and identities are equal exactly where all their bytes are.
pub proof fn law_equal_keys(a: PublicKey, b: PublicKey, c: IdentityKey, d: IdentityKey)
    ensures
        a.eq_spec(&b) <==> a.bytes@ == b.bytes@,
        c.eq_spec(&d) <==> c.public_key.bytes@ == d.public_key.bytes@,
{
}

/// The models of numbers are the numbers.
pub proof fn law_models_of_numbers(id: PreKeyId, c: Counter)
    ensures
        id@ == id.id,
        c@ == c.value,
{
}

/// The models of key pairs, identities and prekeys hold all their keys.
pub proof fn law_models_of_keys(
    kp: KeyPair,
    ident: IdentityKey,
    idents: IdentityKeyPair,
    prekey: PreKey,
    bundle: PreKeyBundle,
    d: DerivedSecrets,
)
    ensures
        kp@.secret == kp.secret_key.bytes@,
        kp@.public == kp.public_key.bytes@,
        ident@ == ident.public_key.bytes@,
        idents@.secret == idents.secret_key.bytes@,
        idents@.public == idents.public_key.public_key.bytes@,
        prekey@.key_id == prekey.key_id.id,
        prekey@.key_pair.secret == prekey.key_pair.secret_key.bytes@,
        prekey@.key_pair.public == prekey.key_pair.public_key.bytes@,
        bundle@.prekey_id == bundle.prekey_id.id,
        bundle@.public_key == bundle.public_key.bytes@,
        bundle@.identity_key == bundle.identity_key.public_key.bytes@,
        d@.cipher_key == d.cipher_key.bytes@,
        d@.mac_key == d.mac_key.bytes@,
{
}

/// The models of chains and message keys hold all their keys and positions.
pub proof fn law_models_of_chains(
    root: RootKey,
    ck: ChainKey,
    send: SendChain,
    recv: RecvChain,
    mk: MessageKeys,
)
    ensures
        root@ == root.key.bytes@,
        ck@.key == ck.key.bytes@,
        ck@.idx == ck.idx.value,
        send@.chain_key == send.chain_key@,
        send@.ratchet_key == send.ratchet_key@,
        recv@.chain_key == recv.chain_key@,
        recv@.ratchet_key == recv.ratchet_key.bytes@,
        mk@.cipher_key == mk.cipher_key.bytes@,
        mk@.mac_key == mk.mac_key.bytes@,
        mk@.counter == mk.counter.value,
{
}

/// The models of messages and envelopes hold all that travels.
pub proof fn law_models_of_messages(keyed: PreKeyMessage, message: Message, env: Envelope)
    ensures
        keyed@.prekey_id == keyed.prekey_id.id,
        keyed@.base_key == keyed.base_key.bytes@,
        keyed@.identity_key == keyed.identity_key.public_key.bytes@,
        keyed@.message == keyed.message@,
        match message {
            Message::Plain(m) => message@ == MessageView::Plain(m@),
            Message::Keyed(m) => message@ == MessageView::Keyed(m@),
        },
        message@.cipher() == (match message {
            Message::Plain(m) => m@,
            Message::Keyed(m) => m.message@,
        }),
        env@.mac == env.mac.bytes@,
        env@.message == env.message@,
{
}

/// The models of sessions and their states hold all their fields.
pub proof fn law_models_of_sessions(state: SessionState, s: Session)
    ensures
        state@.recv_chains == state.recv_chains@,
        state@.send_chain == state.send_chain@,
        state@.root_key == state.root_key@,
        state@.prev_counter == state.prev_counter.value,
        state@.skipped_msgkeys == state.skipped_msgkeys@,
        s@.version == s.version,
        s@.local_identity == s.local_identity@,
        s@.remote_identity == s.remote_identity@,
        match s.pending_prekey {
            None => s@.pending_prekey is None,
            Some(p) => s@.pending_prekey == Some((p.0.id, p.1.bytes@)),
        },
        s@.session_states == s.session_states@,
{
}

/// The model of a result holds the text or the error.
pub proof fn law_model_of_result<E>(text: Vec<u8>, e: DecryptError<E>)
    ensures
        text_of::<E>(Ok(text)) == Ok::<Seq<u8>, DecryptError<E>>(text@),
        text_of::<E>(Err(e)) == Err::<Seq<u8>, DecryptError<E>>(e),
{
}

} // verus!
