//! What one use does to a session and to the store, part by part.
use vstd::prelude::*;

#[allow(unused_imports)]
use crate::keys::{KeyPairView, PreKey, PreKeyBundleView, PreKeyId, MAX_PREKEY_ID};
#[allow(unused_imports)]
use crate::laws::session::{has_prekey, lacks_prekey};
#[allow(unused_imports)]
use crate::laws::state::{
    ahead, behind_error, kept_keys_refuse, law_replay_is_refused, lemma_first_staged,
};
#[allow(unused_imports)]
use crate::laws::steps::law_kept_keys_stay;
#[allow(unused_imports)]
use crate::message::{CipherMessageView, EnvelopeView, MessageView, PreKeyMessageView};
use crate::session::error::DecryptError;
#[allow(unused_imports)]
use crate::session::state::{find_chain, find_keys, too_old, SessionStateView, MAX_COUNTER_GAP};
#[allow(unused_imports)]
use crate::session::{last_opening, opening, PreKeyStore, SessionView, Version};

verus! {

// Starting and sending

/// A session that is started from a published prekey is with the identity behind it, has
/// one state, and names the prekey with the base key. A session from which nothing was
/// received yet has no state and names no prekey.
pub proof fn law_started_sessions(
    ident: KeyPairView,
    pk: PreKeyBundleView,
    base: KeyPairView,
    ratchet: KeyPairView,
    peer: Seq<u8>,
)
    ensures
        ({
            let s = SessionView::alice(ident, pk, base, ratchet);
            &&& s.version == Version::V1
            &&& s.local_identity == ident
            &&& s.remote_identity == pk.identity_key
            &&& s.pending_prekey == Some((pk.prekey_id, base.public))
            &&& s.session_states.len() == 1
            &&& s.session_states[0] == SessionStateView::alice(ident, base, pk, ratchet)
        }),
        ({
            let s = SessionView::blank(ident, peer);
            &&& s.version == Version::V1
            &&& s.local_identity == ident
            &&& s.remote_identity == peer
            &&& s.pending_prekey is None
            &&& s.session_states.len() == 0
        }),
{
}

/// A text is sent with the first state, and changes nothing but that state. The message
/// carries the sender's identity where a prekey is pending.
pub proof fn law_first_state_sends(s: SessionView, plain: Seq<u8>)
    requires
        s.session_states.len() > 0,
    ensures
        s.envelope(plain) == s.session_states[0].envelope(
            s.local_identity.public,
            s.pending_prekey,
            plain,
        ),
        s.sent().version == s.version,
        s.sent().local_identity == s.local_identity,
        s.sent().remote_identity == s.remote_identity,
        s.sent().pending_prekey == s.pending_prekey,
        s.sent().session_states.len() == s.session_states.len(),
        s.sent().session_states[0] == s.session_states[0].sent(),
        forall|i: int|
            0 < i < s.session_states.len() ==> #[trigger] s.sent().session_states[i]
                == s.session_states[i],
{
}

// Which states there are

/// The state of a prekey comes in front. All states that were there before stand behind
/// it as they were and in their order, but for the last of a hundred; and nothing else
/// changes. So what any of them expected is still expected.
pub proof fn law_older_states_stay(
    s: SessionView,
    m: PreKeyMessageView,
    prekey: PreKey,
    i: int,
    sender: SessionStateView,
    gap: nat,
)
    ensures
        ({
            let after = s.unpacked(m, Some(prekey));
            &&& after.session_states.len() == (if s.session_states.len() == 100 {
                100
            } else {
                s.session_states.len() + 1
            })
            &&& after.session_states[0] == SessionStateView::bob(
                s.local_identity,
                prekey.key_pair@,
                m.identity_key,
                m.base_key,
            )
            &&& forall|k: int|
                0 <= k < after.session_states.len() - 1 ==> #[trigger] s.session_states[k]
                    == after.session_states[k + 1]
            &&& 0 <= i < after.session_states.len() - 1 && ahead(s.session_states[i], sender, gap)
                ==> ahead(after.session_states[i + 1], sender, gap)
            &&& after.version == s.version
            &&& after.local_identity == s.local_identity
            &&& after.remote_identity == s.remote_identity
            &&& after.pending_prekey == s.pending_prekey
        }),
        s.unpacked(m, None) == s,
{
}

/// The same of any state that is put in front, and of one that takes the place of
/// another and comes in front.
pub proof fn law_states_in_front(s: SessionView, state: SessionStateView, i: int)
    requires
        0 <= i < s.session_states.len(),
    ensures
        ({
            let after = s.with_state(state);
            &&& after.session_states.len() == (if s.session_states.len() == 100 {
                100
            } else {
                s.session_states.len() + 1
            })
            &&& after.session_states[0] == state
            &&& forall|k: int|
                0 <= k < after.session_states.len() - 1 ==> #[trigger] s.session_states[k]
                    == after.session_states[k + 1]
            &&& after.version == s.version
            &&& after.local_identity == s.local_identity
            &&& after.remote_identity == s.remote_identity
            &&& after.pending_prekey == s.pending_prekey
        }),
        ({
            let after = s.promoted(i, state);
            &&& after.session_states.len() == s.session_states.len()
            &&& after.session_states[0] == state
            &&& forall|k: int|
                0 <= k < i ==> #[trigger] s.session_states[k] == after.session_states[k + 1]
            &&& forall|k: int|
                i < k < s.session_states.len() ==> #[trigger] s.session_states[k]
                    == after.session_states[k]
            &&& after.version == s.version
            &&& after.local_identity == s.local_identity
            &&& after.remote_identity == s.remote_identity
            &&& after.pending_prekey is None
        }),
{
}

/// Whether a message is decrypted with state `i`: it yields a text, and it is the first
/// one, or the first one yields none and no state behind it yields one.
pub open spec fn opens<E>(
    s: SessionView,
    env: EnvelopeView,
    m: CipherMessageView,
    i: int,
) -> bool {
    &&& 0 <= i < s.session_states.len()
    &&& s.session_states[i].decrypt_result::<E>(env, m) is Ok
    &&& i == 0 || {
        &&& s.session_states[0].decrypt_result::<E>(env, m) is Err
        &&& forall|k: int|
            i < k < s.session_states.len() ==> (
            #[trigger] s.session_states[k]).decrypt_result::<E>(env, m) is Err
    }
}

proof fn lemma_last_opening_is_last<E>(
    states: Seq<SessionStateView>,
    env: EnvelopeView,
    m: CipherMessageView,
)
    ensures
        match last_opening::<E>(states, env, m) {
            Some(i) => {
                &&& 0 < i < states.len()
                &&& states[i].decrypt_result::<E>(env, m) is Ok
                &&& forall|k: int|
                    i < k < states.len() ==> (#[trigger] states[k]).decrypt_result::<E>(
                        env,
                        m,
                    ) is Err
            },
            None => forall|k: int|
                0 < k < states.len() ==> (#[trigger] states[k]).decrypt_result::<E>(env, m) is Err,
        },
    decreases states.len(),
{
    if states.len() > 1 && !(states.last().decrypt_result::<E>(env, m) is Ok) {
        let rest = states.drop_last();
        lemma_last_opening_is_last::<E>(rest, env, m);
        let from: int = match last_opening::<E>(rest, env, m) {
            Some(i) => i,
            None => 0,
        };
        assert forall|k: int| from < k < states.len() implies (
        #[trigger] states[k]).decrypt_result::<E>(env, m) is Err by {
            if k < rest.len() {
                assert(rest[k] == states[k]);
            }
        }
    }
}

/// A message is decrypted with one state and no other changes: that state, as the
/// message leaves it, comes in front, the others keep their order, and no prekey is
/// named any more. Where no state yields a text, nothing changes, and the refusal is
/// that of the first.
pub proof fn law_one_state_opens<E>(
    s: SessionView,
    env: EnvelopeView,
    m: CipherMessageView,
    after: SessionView,
)
    requires
        s.session_states.len() > 0,
        s.opened::<E>(env, m, after),
    ensures
        (exists|i: int| #[trigger] opens::<E>(s, env, m, i)) || forall|k: int|
            0 <= k < s.session_states.len() ==> (
            #[trigger] s.session_states[k]).decrypt_result::<E>(env, m) is Err,
        (forall|k: int|
            0 <= k < s.session_states.len() ==> (
            #[trigger] s.session_states[k]).decrypt_result::<E>(env, m) is Err) ==> after == s
            && s.open_result::<E>(env, m) == s.session_states[0].decrypt_result::<E>(env, m),
        forall|i: int| #[trigger]
            opens::<E>(s, env, m, i) ==> {
                &&& s.open_result::<E>(env, m) == s.session_states[i].decrypt_result::<E>(env, m)
                &&& after.session_states.len() == s.session_states.len()
                &&& exists|fresh: KeyPairView|
                    (find_chain(s.session_states[i].recv_chains, m.ratchet_key) is None
                        ==> fresh.valid()) && after.session_states[0]
                        == #[trigger] s.session_states[i].decrypt_state(env, m, fresh)
                &&& forall|k: int|
                    0 <= k < i ==> #[trigger] s.session_states[k] == after.session_states[k + 1]
                &&& forall|k: int|
                    i < k < s.session_states.len() ==> #[trigger] s.session_states[k]
                        == after.session_states[k]
                &&& after.pending_prekey is None
                &&& after.version == s.version
                &&& after.local_identity == s.local_identity
                &&& after.remote_identity == s.remote_identity
            },
{
    let states = s.session_states;
    lemma_last_opening_is_last::<E>(states, env, m);
    if let Some(j) = opening::<E>(states, env, m) {
        assert(opens::<E>(s, env, m, j));
        let fresh = choose|fresh: KeyPairView|
            states[j].draws(m.ratchet_key, fresh) && after == s.promoted(
                j,
                #[trigger] states[j].decrypt_state(env, m, fresh),
            );
        law_states_in_front(s, states[j].decrypt_state(env, m, fresh), j);
        assert forall|i: int| #[trigger] opens::<E>(s, env, m, i) implies i == j by {
            if j == 0 {
            } else if i > j {
                assert(states[i].decrypt_result::<E>(env, m) is Err);
            } else if i < j && i > 0 {
                assert(states[j].decrypt_result::<E>(env, m) is Err);
            }
        }
    } else {
        assert forall|k: int| 0 <= k < states.len() implies (
        #[trigger] states[k]).decrypt_result::<E>(env, m) is Err by {}
    }
}

// What arrives

/// The parts of an answer of the store: what a session becomes, what the store becomes
/// and what comes out, once the store has said what it has under a number.
pub open spec fn answered<E, S: PreKeyStore<E>>(
    s: SessionView,
    store: S,
    env: EnvelopeView,
    m: PreKeyMessageView,
    answer: Result<Option<PreKey>, E>,
    after: SessionView,
    store_after: S,
    r: Result<Seq<u8>, DecryptError<E>>,
) -> bool {
    match answer {
        Err(e) => after == s && store_after == store && r == Err::<Seq<u8>, DecryptError<E>>(
            DecryptError::PreKeyStoreError(e),
        ),
        Ok(prekey) => {
            let with = s.unpacked(m, prekey);
            let opened = r == with.open_result::<E>(env, m.message) && with.opened::<E>(
                env,
                m.message,
                after,
            );
            if m.prekey_id == 65535 {
                store_after == store && opened
            } else {
                exists|outcome: Result<(), E>|
                    {
                        &&& #[trigger] store.removal(
                            PreKeyId { id: m.prekey_id },
                            store_after,
                            outcome,
                        )
                        &&& outcome is Ok ==> opened
                        &&& outcome matches Err(e) ==> after == with && r == Err::<
                            Seq<u8>,
                            DecryptError<E>,
                        >(DecryptError::PreKeyStoreError(e))
                    }
            }
        },
    }
}

/// A message that names no prekey is opened, and the store is not asked. A message that
/// names one is refused where it is not from the peer; otherwise the store is asked for
/// the prekey under the number that the message names, and whatever else the message
/// holds, asked to remove it, unless it is the one of last resort. An error of the store
/// is what comes out.
pub proof fn law_what_arrives<E, S: PreKeyStore<E>>(
    s: SessionView,
    store: S,
    env: EnvelopeView,
    after: SessionView,
    store_after: S,
    r: Result<Seq<u8>, DecryptError<E>>,
)
    ensures
        s.received::<E, S>(store, env, after, store_after, r) <==> match env.message {
            MessageView::Plain(m) => {
                &&& store_after == store
                &&& r == s.open_result::<E>(env, m)
                &&& s.opened::<E>(env, m, after)
            },
            MessageView::Keyed(m) => {
                if m.identity_key != s.remote_identity {
                    &&& store_after == store
                    &&& r == Err::<Seq<u8>, DecryptError<E>>(DecryptError::RemoteIdentityChanged)
                    &&& after == s
                } else {
                    exists|answer: Result<Option<PreKey>, E>| #[trigger]
                        store.lookup(PreKeyId { id: m.prekey_id }, answer) && answered::<E, S>(
                            s,
                            store,
                            env,
                            m,
                            answer,
                            after,
                            store_after,
                            r,
                        )
                }
            },
        },
{
    if let MessageView::Keyed(m) = env.message {
        assert forall|answer: Result<Option<PreKey>, E>| #[trigger]
            store.lookup(PreKeyId { id: m.prekey_id }, answer) implies s.received_keyed(
            store,
            env,
            m,
            answer,
            after,
            store_after,
            r,
        ) == answered::<E, S>(s, store, env, m, answer, after, store_after, r) by {
            lemma_answered::<E, S>(s, store, env, m, answer, after, store_after, r);
        }
    }
}

proof fn lemma_answered<E, S: PreKeyStore<E>>(
    s: SessionView,
    store: S,
    env: EnvelopeView,
    m: PreKeyMessageView,
    answer: Result<Option<PreKey>, E>,
    after: SessionView,
    store_after: S,
    r: Result<Seq<u8>, DecryptError<E>>,
)
    ensures
        s.received_keyed(store, env, m, answer, after, store_after, r) == answered::<E, S>(
            s,
            store,
            env,
            m,
            answer,
            after,
            store_after,
            r,
        ),
{
}

/// Whenever a message from the peer names a prekey other than that of last resort, and
/// the store can be asked for it, the store is one that its removal of that prekey
/// allows afterwards.
pub proof fn law_prekey_is_used_up<E, S: PreKeyStore<E>>(
    s: SessionView,
    store: S,
    env: EnvelopeView,
    m: PreKeyMessageView,
    after: SessionView,
    store_after: S,
    r: Result<Seq<u8>, DecryptError<E>>,
)
    requires
        env.message == MessageView::Keyed(m),
        m.identity_key == s.remote_identity,
        m.prekey_id != 65535,
        s.received::<E, S>(store, env, after, store_after, r),
        forall|answer: Result<Option<PreKey>, E>| #[trigger]
            store.lookup(PreKeyId { id: m.prekey_id }, answer) ==> answer is Ok,
    ensures
        exists|outcome: Result<(), E>| #[trigger]
            store.removal(PreKeyId { id: m.prekey_id }, store_after, outcome),
{
    law_what_arrives::<E, S>(s, store, env, after, store_after, r);
}

/// A store from which a prekey is gone once it was removed.
pub open spec fn lets_go<E, S: PreKeyStore<E>>(store: S, id: PreKeyId) -> bool {
    forall|after: S, outcome: Result<(), E>| #[trigger]
        store.removal(id, after, outcome) ==> outcome is Ok && lacks_prekey::<E, S>(after, id)
}

/// With a store that lets go of its prekeys, an envelope that named one and yielded a
/// text is refused when it arrives again, and changes nothing, where no other state takes
/// it for its own and no kept key opens it.
pub proof fn law_used_up_prekey_opens_nothing<E, S: PreKeyStore<E>>(
    s: SessionView,
    store: S,
    env: EnvelopeView,
    m: PreKeyMessageView,
    after: SessionView,
    store_after: S,
    text: Seq<u8>,
    again: SessionView,
    store_again: S,
    r: Result<Seq<u8>, DecryptError<E>>,
)
    requires
        env.message == MessageView::Keyed(m),
        m.prekey_id != 65535,
        s.provided::<E, S>(store, env),
        forall|answer: Result<Option<PreKey>, E>| #[trigger]
            store.lookup(PreKeyId { id: m.prekey_id }, answer) ==> answer is Ok,
        lets_go::<E, S>(store, PreKeyId { id: m.prekey_id }),
        s.received::<E, S>(store, env, after, store_after, Ok(text)),
        after.received::<E, S>(store_after, env, again, store_again, r),
        forall|k: int|
            0 < k < after.session_states.len() ==> (
            #[trigger] after.session_states[k]).decrypt_result::<E>(env, m.message) is Err,
        kept_keys_refuse(after.session_states[0].skipped_msgkeys, env, m.message.counter),
    ensures
        again == after,
        r == Err::<Seq<u8>, DecryptError<E>>(
            if m.message.counter == u32::MAX {
                DecryptError::TooDistantFuture
            } else {
                behind_error(after.session_states[0].skipped_msgkeys, m.message.counter)
            },
        ),
{
    let id = PreKeyId { id: m.prekey_id };
    law_what_arrives::<E, S>(s, store, env, after, store_after, Ok(text));
    law_what_arrives::<E, S>(after, store_after, env, again, store_again, r);
    let answer = choose|answer: Result<Option<PreKey>, E>| #[trigger]
        store.lookup(id, answer) && answered::<E, S>(
            s,
            store,
            env,
            m,
            answer,
            after,
            store_after,
            Ok(text),
        );
    let with = s.unpacked(m, answer->Ok_0);
    assert(lacks_prekey::<E, S>(store_after, id));
    assert(with.opened::<E>(env, m.message, after));
    assert(with.session_states.len() > 0);
    law_one_state_opens::<E>(with, env, m.message, after);
    assert(with.open_result::<E>(env, m.message) == Ok::<Seq<u8>, DecryptError<E>>(text));
    let i = choose|i: int| #[trigger] opens::<E>(with, env, m.message, i);
    assert(opens::<E>(with, env, m.message, i));
    let fresh = choose|fresh: KeyPairView|
        (find_chain(with.session_states[i].recv_chains, m.message.ratchet_key) is None
            ==> fresh.valid()) && after.session_states[0]
            == #[trigger] with.session_states[i].decrypt_state(env, m.message, fresh);
    law_replay_is_refused::<E>(with.session_states[i], env, m.message, fresh);
    let second = choose|answer: Result<Option<PreKey>, E>| #[trigger]
        store_after.lookup(id, answer) && answered::<E, S>(
            after,
            store_after,
            env,
            m,
            answer,
            again,
            store_again,
            r,
        );
    assert(after.unpacked(m, None) == after);
    assert(r == after.open_result::<E>(env, m.message));
    assert(after.opened::<E>(env, m.message, again));
    law_one_state_opens::<E>(after, env, m.message, again);
}

/// The first message that starts a session starts it once: with a store that has its
/// prekey and lets go of it, the same envelope is a duplicate when it arrives again,
/// whichever of the first texts it holds.
pub proof fn law_first_message_starts_once<E, S: PreKeyStore<E>>(
    ident: KeyPairView,
    store: S,
    env: EnvelopeView,
    m: PreKeyMessageView,
    prekey: PreKey,
    after: SessionView,
    store_after: S,
    text: Seq<u8>,
    again: SessionView,
    store_again: S,
    r: Result<Seq<u8>, DecryptError<E>>,
)
    requires
        env.message == MessageView::Keyed(m),
        m.prekey_id != 65535,
        prekey.key_id == (PreKeyId { id: m.prekey_id }),
        has_prekey::<E, S>(store, prekey),
        lets_go::<E, S>(store, PreKeyId { id: m.prekey_id }),
        SessionView::blank(ident, m.identity_key).received::<E, S>(
            store,
            env,
            after,
            store_after,
            Ok(text),
        ),
        after.received::<E, S>(store_after, env, again, store_again, r),
    ensures
        r == Err::<Seq<u8>, DecryptError<E>>(DecryptError::DuplicateMessage),
        again == after,
        lacks_prekey::<E, S>(store_after, PreKeyId { id: m.prekey_id }),
{
    let blank = SessionView::blank(ident, m.identity_key);
    law_what_arrives::<E, S>(blank, store, env, after, store_after, Ok(text));
    let with = blank.unpacked(m, Some(prekey));
    let c = m.message;
    assert(with.opened::<E>(env, c, after));
    law_one_state_opens::<E>(with, env, c, after);
    let state = with.session_states[0];
    assert(opens::<E>(with, env, c, 0));
    let fresh = choose|fresh: KeyPairView|
        (find_chain(state.recv_chains, c.ratchet_key) is None ==> fresh.valid())
            && after.session_states[0] == #[trigger] state.decrypt_state(env, c, fresh);
    let ck = state.chain_for(c.ratchet_key).chain_key;
    assert(ck.idx == 0);
    law_replay_is_refused::<E>(state, env, c, fresh);
    law_kept_keys_stay::<E>(state, env, c, fresh);
    let kept = after.session_states[0].skipped_msgkeys;
    if c.counter > 0 {
        lemma_first_staged(state.skipped_msgkeys, ck, c.counter as nat);
    }
    assert(c.counter <= 1000);
    assert(!too_old(kept, c.counter));
    law_used_up_prekey_opens_nothing::<E, S>(
        blank,
        store,
        env,
        m,
        after,
        store_after,
        text,
        again,
        store_again,
        r,
    );
}

/// Where a message brings the state of a prekey and is decrypted with it, all states that
/// were there before stand behind it as they were, and expect what they expected.
pub proof fn law_restart_keeps_older_states<E, S: PreKeyStore<E>>(
    s: SessionView,
    store: S,
    env: EnvelopeView,
    m: PreKeyMessageView,
    prekey: PreKey,
    after: SessionView,
    store_after: S,
    r: Result<Seq<u8>, DecryptError<E>>,
    i: int,
    sender: SessionStateView,
    gap: nat,
)
    requires
        env.message == MessageView::Keyed(m),
        m.identity_key == s.remote_identity,
        prekey.key_id == (PreKeyId { id: m.prekey_id }),
        has_prekey::<E, S>(store, prekey),
        SessionStateView::bob(
            s.local_identity,
            prekey@.key_pair,
            m.identity_key,
            m.base_key,
        ).decrypt_result::<E>(env, m.message) is Ok,
        s.received::<E, S>(store, env, after, store_after, r),
        0 <= i < s.session_states.len(),
        i < 99,
        ahead(s.session_states[i], sender, gap),
    ensures
        r is Ok,
        after.session_states[i + 1] == s.session_states[i],
        ahead(after.session_states[i + 1], sender, gap),
{
    law_what_arrives::<E, S>(s, store, env, after, store_after, r);
    let with = s.unpacked(m, Some(prekey));
    law_older_states_stay(s, m, prekey, i, sender, gap);
    assert(with.opened::<E>(env, m.message, after));
    law_one_state_opens::<E>(with, env, m.message, after);
    assert(opens::<E>(with, env, m.message, 0));
    assert(with.session_states[i + 1] == s.session_states[i]);
}

/// A session can decrypt what arrives exactly where it has a state, or the message is
/// refused before one is needed, or the store is sure to bring one or to fail.
pub proof fn law_state_is_provided<E, S: PreKeyStore<E>>(
    s: SessionView,
    store: S,
    env: EnvelopeView,
)
    ensures
        s.provided::<E, S>(store, env) <==> {
            ||| s.session_states.len() > 0
            ||| env.message matches MessageView::Keyed(m) && {
                ||| m.identity_key != s.remote_identity
                ||| forall|answer: Result<Option<PreKey>, E>| #[trigger]
                    store.lookup(PreKeyId { id: m.prekey_id }, answer) ==> answer != Ok::<
                        Option<PreKey>,
                        E,
                    >(None)
                ||| m.prekey_id != 65535 && forall|then: S, outcome: Result<(), E>| #[trigger]
                    store.removal(PreKeyId { id: m.prekey_id }, then, outcome) ==> outcome is Err
            }
        },
        s.valid() <==> s.local_identity.valid() && forall|i: int|
            0 <= i < s.session_states.len() ==> (#[trigger] s.session_states[i]).valid(),
        s.within_limits() <==> s.session_states.len() <= 100 && forall|i: int|
            0 <= i < s.session_states.len() ==> (#[trigger] s.session_states[i]).within_limits(),
{
}

} // verus!
