//! Sessions between two peers.
use vstd::prelude::*;

use crate::keys::{
    IdentityKey, IdentityKeyPair, KeyPair, PreKey, PreKeyBundle, PreKeyId, PublicKey,
    MAX_PREKEY_ID,
};
#[allow(unused_imports)]
use crate::keys::{KeyPairView, PreKeyBundleView};
use crate::list::List;
use crate::message::{CipherMessage, Envelope, Message, PreKeyMessage};
#[allow(unused_imports)]
use crate::message::{CipherMessageView, EnvelopeView, MessageView, PreKeyMessageView};
#[allow(unused_imports)]
use crate::primitives::MAX_TEXT_LEN;
use crate::session::error::DecryptError;
use crate::session::state::{AliceParams, BobParams, SessionState};
#[allow(unused_imports)]
use crate::session::state::{cons_capped, pending_view, text_of, SessionStateView};
#[allow(unused_imports)]
use crate::wire::{decode, encode, Wire};

pub mod chain;
pub mod error;
pub mod state;

verus! {

/// How many states a session keeps.
pub const MAX_SESSION_STATES: usize = 100;

/// Where a peer keeps its prekeys.
///
/// What an implementation does is its own affair: it says in `lookup` and
/// `removal` which answers it gives, and by default that may be any.
pub trait PreKeyStore<E>: Sized {
    /// Whether `answer` may be what the store says of a prekey.
    open spec fn lookup(&self, id: PreKeyId, answer: Result<Option<PreKey>, E>) -> bool {
        true
    }

    /// Whether the store may become `after`, with a given outcome, when a prekey
    /// is removed.
    open spec fn removal(&self, id: PreKeyId, after: Self, outcome: Result<(), E>) -> bool {
        true
    }

    /// The prekey with a number, if the store has it.
    fn prekey(&self, id: PreKeyId) -> (r: Result<Option<PreKey>, E>)
        ensures
            self.lookup(id, r),
    ;

    /// Removes the prekey with a number.
    fn remove(&mut self, id: PreKeyId) -> (r: Result<(), E>)
        ensures
            old(self).removal(id, *final(self), r),
    ;
}

/// The version of a session.
#[derive(Clone, Copy, Debug, PartialEq, Eq, Structural)]
pub enum Version {
    V1,
}

impl View for Version {
    type V = Version;

    open spec fn view(&self) -> Version {
        *self
    }
}

/// A session with a peer.
pub struct Session {
    pub version: Version,
    pub local_identity: IdentityKeyPair,
    pub remote_identity: IdentityKey,
    pub pending_prekey: Option<(PreKeyId, PublicKey)>,
    pub session_states: List<SessionState>,
}

/// The model of [`Session`].
#[verifier::ext_equal]
pub struct SessionView {
    pub version: Version,
    pub local_identity: KeyPairView,
    pub remote_identity: Seq<u8>,
    pub pending_prekey: Option<(u16, Seq<u8>)>,
    pub session_states: Seq<SessionStateView>,
}

impl View for Session {
    type V = SessionView;

    open spec fn view(&self) -> SessionView {
        SessionView {
            version: self.version,
            local_identity: self.local_identity@,
            remote_identity: self.remote_identity@,
            pending_prekey: pending_view(self.pending_prekey),
            session_states: self.session_states@,
        }
    }
}

/// The last state behind the first that a message yields a text from.
pub open spec fn last_opening<E>(
    states: Seq<SessionStateView>,
    env: EnvelopeView,
    m: CipherMessageView,
) -> Option<int>
    decreases states.len(),
{
    if states.len() <= 1 {
        None
    } else if states.last().decrypt_result::<E>(env, m) is Ok {
        Some(states.len() - 1)
    } else {
        last_opening::<E>(states.drop_last(), env, m)
    }
}

/// The state that a message is decrypted with: the first, or else the last that
/// yields a text.
pub open spec fn opening<E>(
    states: Seq<SessionStateView>,
    env: EnvelopeView,
    m: CipherMessageView,
) -> Option<int> {
    if states[0].decrypt_result::<E>(env, m) is Ok {
        Some(0)
    } else {
        last_opening::<E>(states, env, m)
    }
}

impl SessionView {
    /// The session of the side that starts it with a published prekey.
    pub open spec fn alice(
        ident: KeyPairView,
        pk: PreKeyBundleView,
        base: KeyPairView,
        ratchet: KeyPairView,
    ) -> SessionView {
        SessionView {
            version: Version::V1,
            local_identity: ident,
            remote_identity: pk.identity_key,
            pending_prekey: Some((pk.prekey_id, base.public)),
            session_states: seq![SessionStateView::alice(ident, base, pk, ratchet)],
        }
    }

    /// A session with a peer from whom nothing was received yet.
    pub open spec fn blank(ident: KeyPairView, remote: Seq<u8>) -> SessionView {
        SessionView {
            version: Version::V1,
            local_identity: ident,
            remote_identity: remote,
            pending_prekey: None,
            session_states: Seq::empty(),
        }
    }

    /// The envelope that carries a text.
    pub open spec fn envelope(self, plain: Seq<u8>) -> EnvelopeView {
        self.session_states[0].envelope(self.local_identity.public, self.pending_prekey, plain)
    }

    /// The session after a text was sent.
    pub open spec fn sent(self) -> SessionView {
        SessionView {
            session_states: self.session_states.update(0, self.session_states[0].sent()),
            ..self
        }
    }

    /// The session with one more state in front.
    pub open spec fn with_state(self, state: SessionStateView) -> SessionView {
        SessionView {
            session_states: cons_capped(self.session_states, state, MAX_SESSION_STATES as int),
            ..self
        }
    }

    /// The session in which state `i` has become `state` and stands in front. The
    /// peer has answered, so no prekey is named from now on.
    pub open spec fn promoted(self, i: int, state: SessionStateView) -> SessionView {
        SessionView {
            session_states: seq![state] + self.session_states.remove(i),
            pending_prekey: None,
            ..self
        }
    }

    /// The session after a message brought the answer of the prekey store: with a
    /// state for the prekey, if there was one.
    pub open spec fn unpacked(self, m: PreKeyMessageView, prekey: Option<PreKey>) -> SessionView {
        match prekey {
            Some(k) => self.with_state(
                SessionStateView::bob(
                    self.local_identity,
                    k@.key_pair,
                    m.identity_key,
                    m.base_key,
                ),
            ),
            None => self,
        }
    }

    /// What a message yields.
    pub open spec fn open_result<E>(self, env: EnvelopeView, m: CipherMessageView) -> Result<
        Seq<u8>,
        DecryptError<E>,
    > {
        match opening::<E>(self.session_states, env, m) {
            Some(i) => self.session_states[i].decrypt_result(env, m),
            None => self.session_states[0].decrypt_result(env, m),
        }
    }

    /// Whether a message may turn this session into `after`.
    pub open spec fn opened<E>(
        self,
        env: EnvelopeView,
        m: CipherMessageView,
        after: SessionView,
    ) -> bool {
        match opening::<E>(self.session_states, env, m) {
            Some(i) => exists|fresh: KeyPairView|
                self.session_states[i].draws(m.ratchet_key, fresh) && after == self.promoted(
                    i,
                    #[trigger] self.session_states[i].decrypt_state(env, m, fresh),
                ),
            None => after == self,
        }
    }

    /// Whether an envelope may turn this session into `after` with result `r`.
    pub open spec fn received<E, S: PreKeyStore<E>>(
        self,
        store: S,
        env: EnvelopeView,
        after: SessionView,
        store_after: S,
        r: Result<Seq<u8>, DecryptError<E>>,
    ) -> bool {
        match env.message {
            MessageView::Plain(m) => {
                &&& store_after == store
                &&& r == self.open_result::<E>(env, m)
                &&& self.opened::<E>(env, m, after)
            },
            MessageView::Keyed(m) => if m.identity_key != self.remote_identity {
                &&& store_after == store
                &&& r == Err::<Seq<u8>, _>(DecryptError::<E>::RemoteIdentityChanged)
                &&& after == self
            } else {
                exists|answer: Result<Option<PreKey>, E>|
                    #[trigger] store.lookup(PreKeyId { id: m.prekey_id }, answer)
                        && self.received_keyed(store, env, m, answer, after, store_after, r)
            },
        }
    }

    /// Whether a message that names a prekey may turn this session into `after`
    /// with result `r`, once the store has given its answer.
    pub open spec fn received_keyed<E, S: PreKeyStore<E>>(
        self,
        store: S,
        env: EnvelopeView,
        m: PreKeyMessageView,
        answer: Result<Option<PreKey>, E>,
        after: SessionView,
        store_after: S,
        r: Result<Seq<u8>, DecryptError<E>>,
    ) -> bool {
        match answer {
            Err(e) => {
                &&& store_after == store
                &&& r == Err::<Seq<u8>, _>(DecryptError::PreKeyStoreError(e))
                &&& after == self
            },
            Ok(prekey) => {
                let unpacked = self.unpacked(m, prekey);
                if m.prekey_id == MAX_PREKEY_ID {
                    &&& store_after == store
                    &&& r == unpacked.open_result::<E>(env, m.message)
                    &&& unpacked.opened::<E>(env, m.message, after)
                } else {
                    exists|outcome: Result<(), E>|
                        #[trigger] store.removal(
                            PreKeyId { id: m.prekey_id },
                            store_after,
                            outcome,
                        ) && match outcome {
                            Err(e) => {
                                &&& r == Err::<Seq<u8>, _>(DecryptError::PreKeyStoreError(e))
                                &&& after == unpacked
                            },
                            Ok(_) => {
                                &&& r == unpacked.open_result::<E>(env, m.message)
                                &&& unpacked.opened::<E>(env, m.message, after)
                            },
                        }
                }
            },
        }
    }

    /// Whether there is a state to decrypt an envelope with, whatever the store
    /// does: there is one already, or the store provides one, or none is needed.
    pub open spec fn provided<E, S: PreKeyStore<E>>(self, store: S, env: EnvelopeView) -> bool {
        ||| self.session_states.len() > 0
        ||| env.message matches MessageView::Keyed(m) && {
            ||| m.identity_key != self.remote_identity
            ||| forall|answer: Result<Option<PreKey>, E>|
                #[trigger] store.lookup(PreKeyId { id: m.prekey_id }, answer) ==> answer != Ok::<
                    Option<PreKey>,
                    E,
                >(None)
            ||| m.prekey_id != MAX_PREKEY_ID && forall|after: S, outcome: Result<(), E>|
                #[trigger] store.removal(PreKeyId { id: m.prekey_id }, after, outcome)
                    ==> outcome is Err
        }
    }

    /// The key pairs are such.
    pub open spec fn valid(self) -> bool {
        &&& self.local_identity.valid()
        &&& forall|i: int|
            0 <= i < self.session_states.len() ==> (#[trigger] self.session_states[i]).valid()
    }

    /// The limits are kept.
    pub open spec fn within_limits(self) -> bool {
        &&& self.session_states.len() <= MAX_SESSION_STATES
        &&& forall|i: int|
            0 <= i < self.session_states.len() ==> (
            #[trigger] self.session_states[i]).within_limits()
    }
}

impl Session {
    /// Starts a session with a peer from one of its published prekeys.
    pub fn init_from_prekey(alice: &IdentityKeyPair, pk: PreKeyBundle) -> (r: Session)
        ensures
            exists|base: KeyPairView, ratchet: KeyPairView|
                base.valid() && ratchet.valid() && r@ == #[trigger] SessionView::alice(
                    alice@,
                    pk@,
                    base,
                    ratchet,
                ),
    {
        let alice_base = KeyPair::new();
        let send_ratchet = KeyPair::new();
        Session::init_from_prekey_with(alice, pk, alice_base, send_ratchet)
    }

    /// Starts a session with a peer from one of its published prekeys and given
    /// key pairs.
    pub fn init_from_prekey_with(
        alice: &IdentityKeyPair,
        pk: PreKeyBundle,
        alice_base: KeyPair,
        send_ratchet: KeyPair,
    ) -> (r: Session)
        ensures
            r@ == SessionView::alice(alice@, pk@, alice_base@, send_ratchet@),
    {
        let state = SessionState::init_as_alice_with(
            AliceParams { alice_ident: alice, alice_base: &alice_base, bob: &pk },
            send_ratchet,
        );
        Session {
            version: Version::V1,
            local_identity: *alice,
            remote_identity: pk.identity_key,
            pending_prekey: Some((pk.prekey_id, alice_base.public_key)),
            session_states: List::singleton(state),
        }
    }

    /// Starts a session with a peer from its first message.
    pub fn init_from_message<E, S: PreKeyStore<E>>(
        ours: &IdentityKeyPair,
        store: &mut S,
        env: &Envelope,
    ) -> (r: Result<(Session, Vec<u8>), DecryptError<E>>)
        requires
            env@.message matches MessageView::Keyed(m) ==> SessionView::blank(
                ours@,
                m.identity_key,
            ).provided::<E, S>(*old(store), env@),
        ensures
            match env@.message {
                MessageView::Plain(_) => {
                    &&& r == Err::<(Session, Vec<u8>), _>(DecryptError::<E>::InvalidMessage)
                    &&& *final(store) == *old(store)
                },
                MessageView::Keyed(m) => {
                    let blank = SessionView::blank(ours@, m.identity_key);
                    match r {
                        Ok((s, text)) => {
                            &&& s@.session_states.len() > 0
                            &&& blank.received::<E, S>(
                                *old(store),
                                env@,
                                s@,
                                *final(store),
                                Ok(text@),
                            )
                        },
                        Err(e) => exists|after: SessionView|
                            #[trigger] blank.received::<E, S>(
                                *old(store),
                                env@,
                                after,
                                *final(store),
                                Err(e),
                            ),
                    }
                },
            },
    {
        let msg = match env.message() {
            Message::Plain(_) => return Err(DecryptError::InvalidMessage),
            Message::Keyed(m) => m,
        };
        let mut session = Session {
            version: Version::V1,
            local_identity: *ours,
            remote_identity: msg.identity_key,
            pending_prekey: None,
            session_states: List::nil(),
        };
        let ghost m = env@.message->Keyed_0;
        assert(session@ == SessionView::blank(ours@, m.identity_key));
        match session.decrypt(store, env) {
            Ok(plain) => Ok((session, plain)),
            Err(e) => Err(e),
        }
    }

    /// Encrypts a text.
    pub fn encrypt(&mut self, plain: &[u8]) -> (r: Envelope)
        requires
            old(self)@.session_states.len() > 0,
            plain@.len() <= MAX_TEXT_LEN,
        ensures
            r@ == old(self)@.envelope(plain@),
            final(self)@ == old(self)@.sent(),
    {
        let pending = self.pending_prekey;
        let identity = self.local_identity.public_key;
        let mut state = self.session_states.at(0).clone();
        let envelope = state.encrypt(identity, &pending, plain);
        self.session_states.replace(0, state);
        envelope
    }

    /// Decrypts an envelope.
    pub fn decrypt<E, S: PreKeyStore<E>>(&mut self, store: &mut S, env: &Envelope) -> (r: Result<
        Vec<u8>,
        DecryptError<E>,
    >)
        requires
            old(self)@.provided::<E, S>(*old(store), env@),
        ensures
            old(self)@.received::<E, S>(
                *old(store),
                env@,
                final(self)@,
                *final(store),
                text_of(r),
            ),
            r is Ok || old(self)@.session_states.len() > 0 ==> final(self)@.session_states.len()
                > 0,
    {
        let mesg = match env.message() {
            Message::Plain(m) => m,
            Message::Keyed(m) => {
                if m.identity_key != self.remote_identity {
                    return Err(DecryptError::RemoteIdentityChanged);
                }
                match self.unpack(store, m) {
                    Ok(c) => c,
                    Err(e) => return Err(e),
                }
            },
        };
        self.open(env, mesg)
    }

    /// Decrypts a message with the first state, or else with the last that yields
    /// a text.
    pub fn open<E>(&mut self, env: &Envelope, mesg: &CipherMessage) -> (r: Result<
        Vec<u8>,
        DecryptError<E>,
    >)
        requires
            old(self)@.session_states.len() > 0,
        ensures
            text_of(r) == old(self)@.open_result::<E>(env@, mesg@),
            old(self)@.opened::<E>(env@, mesg@, final(self)@),
            final(self)@.session_states.len() > 0,
    {
        let ghost states = self@.session_states;
        // try first session state
        let mut first_state = self.session_states.at(0).clone();
        let first_result: Result<Vec<u8>, DecryptError<E>> = first_state.decrypt(env, mesg);
        if first_result.is_ok() {
            self.promote(0, first_state);
            return first_result;
        }
        // try remaining session states, the last one first

        let n: usize = self.session_states.len();
        let mut i: usize = n;
        assert(states.take(n as int) =~= states);
        while i > 1
            invariant
                states == self.session_states@,
                self@ == old(self)@,
                1 <= i <= n,
                n == states.len(),
                !(states[0].decrypt_result::<E>(env@, mesg@) is Ok),
                last_opening::<E>(states, env@, mesg@) == last_opening::<E>(
                    states.take(i as int),
                    env@,
                    mesg@,
                ),
            decreases i,
        {
            let k: usize = i - 1;
            proof {
                assert(states.take(i as int).last() == states[k as int]);
                assert(states.take(i as int).drop_last() =~= states.take(k as int));
            }
            let mut st = self.session_states.at(k).clone();
            let result: Result<Vec<u8>, DecryptError<E>> = st.decrypt(env, mesg);
            if result.is_ok() {
                self.promote(k, st);
                return result;
            }
            i = k;
        }
        first_result
    }

    /// Puts what state `i` has become in front. The peer has answered, so no
    /// prekey is named from now on.
    pub fn promote(&mut self, i: usize, state: SessionState)
        requires
            i < old(self)@.session_states.len(),
        ensures
            final(self)@ == old(self)@.promoted(i as int, state@),
    {
        let _old = self.session_states.remove(i);
        self.session_states.cons(state);
        self.pending_prekey = None;
    }

    /// Puts a new state in front. The last one gives way if there are as many as
    /// may be.
    pub fn insert_state(&mut self, state: SessionState)
        ensures
            final(self)@ == old(self)@.with_state(state@),
    {
        if self.session_states.len() == MAX_SESSION_STATES {
            self.session_states.init();
        }
        self.session_states.cons(state);
    }

    /// Prepares for a message that names a prekey, and uses the prekey up.
    pub fn unpack<'s, E, S: PreKeyStore<E>>(
        &mut self,
        store: &mut S,
        m: &'s PreKeyMessage,
    ) -> (r: Result<&'s CipherMessage, DecryptError<E>>)
        ensures
            r matches Ok(c) ==> c@ == m@.message,
            exists|answer: Result<Option<PreKey>, E>|
                #[trigger] old(store).lookup(m.prekey_id, answer) && match answer {
                    Err(e) => {
                        &&& r == Err::<&CipherMessage, _>(DecryptError::PreKeyStoreError(e))
                        &&& final(self)@ == old(self)@
                        &&& *final(store) == *old(store)
                    },
                    Ok(prekey) => {
                        &&& final(self)@ == old(self)@.unpacked(m@, prekey)
                        &&& if m@.prekey_id == MAX_PREKEY_ID {
                            r is Ok && *final(store) == *old(store)
                        } else {
                            exists|outcome: Result<(), E>|
                                #[trigger] old(store).removal(m.prekey_id, *final(store), outcome)
                                    && match outcome {
                                    Err(e) => r == Err::<&CipherMessage, _>(
                                        DecryptError::PreKeyStoreError(e),
                                    ),
                                    Ok(_) => r is Ok,
                                }
                        }
                    },
                },
    {
        let answer = store.prekey(m.prekey_id);
        let ghost given = answer;
        let prekey = match answer {
            Ok(prekey) => prekey,
            Err(e) => {
                assert(store.lookup(m.prekey_id, given));
                return Err(DecryptError::from_error(e));
            },
        };
        if let Some(k) = prekey {
            let new_state = SessionState::init_as_bob(
                BobParams {
                    bob_ident: &self.local_identity,
                    bob_prekey: k.key_pair,
                    alice_ident: &m.identity_key,
                    alice_base: &m.base_key,
                },
            );
            self.insert_state(new_state);
        }
        if m.prekey_id.value() != MAX_PREKEY_ID {
            match store.remove(m.prekey_id) {
                Ok(_) => {},
                Err(e) => return Err(DecryptError::from_error(e)),
            }
        }
        Ok(&m.message)
    }

    /// The session as bytes.
    pub fn encode(&self) -> (r: Vec<u8>)
        ensures
            r@ == Session::bytes(self@),
            self@.valid() ==> Session::legal(self@),
    {
        encode(self)
    }

    /// The session that some bytes stand for. What was encoded is decoded to the
    /// same session.
    pub fn decode(b: &[u8]) -> (r: Option<Session>)
        ensures
            r matches Some(s) ==> Session::legal(s@) && b@ == Session::bytes(s@) && s@.valid(),
            forall|v: SessionView|
                Session::legal(v) && b@ == #[trigger] Session::bytes(v) ==> (r matches Some(s)
                    && s@ == v),
            forall|x: Session|
                x@.valid() && b@ == #[trigger] Session::bytes(x@) ==> (r matches Some(s) && s@
                    == x@),
    {
        proof {
            assert forall|x: Session| x@.valid() && b@ == #[trigger] Session::bytes(
                x@,
            ) implies Session::legal(x@) by {
                x.lemma_own();
            }
        }
        decode(b)
    }

    pub fn local_identity(&self) -> (r: &IdentityKey)
        ensures
            r@ == self@.local_identity.public,
    {
        &self.local_identity.public_key
    }

    pub fn remote_identity(&self) -> (r: &IdentityKey)
        ensures
            r@ == self@.remote_identity,
    {
        &self.remote_identity
    }
}

} // verus!
