//! What every operation keeps.
use vstd::prelude::*;

use crate::keys::{KeyPairView, PreKey, PreKeyBundleView, PreKeyId};
#[allow(unused_imports)]
use crate::laws::session::lemma_last_opening_is_ok;
#[allow(unused_imports)]
use crate::laws::state::{law_chain_moves_forward, lemma_other_keys_absent};
use crate::message::{CipherMessageView, EnvelopeView, MessageView, PreKeyMessageView};
#[allow(unused_imports)]
use crate::session::chain::RecvChainView;
use crate::session::error::DecryptError;
#[allow(unused_imports)]
use crate::session::state::{find_chain, SessionStateView};
#[allow(unused_imports)]
use crate::session::{opening, PreKeyStore, Session, SessionView, MAX_SESSION_STATES};
#[allow(unused_imports)]
use crate::wire::{law_bytes_determine_value, Wire};

verus! {

proof fn lemma_not_found(chains: Seq<RecvChainView>, key: Seq<u8>)
    requires
        find_chain(chains, key) is None,
    ensures
        forall|i: int| 0 <= i < chains.len() ==> (#[trigger] chains[i]).ratchet_key != key,
    decreases chains.len(),
{
    if chains.len() > 0 {
        let rest = chains.drop_first();
        lemma_not_found(rest, key);
        assert forall|i: int| 0 <= i < chains.len() implies (#[trigger] chains[i]).ratchet_key
            != key by {
            if i > 0 {
                assert(rest[i - 1] == chains[i]);
            }
        }
    }
}

/// The states that a session starts with keep the limits.
pub proof fn law_new_states_are_within_limits(
    ident: KeyPairView,
    base: KeyPairView,
    bundle: PreKeyBundleView,
    ratchet: KeyPairView,
    prekey: KeyPairView,
    peer: Seq<u8>,
    peer_base: Seq<u8>,
)
    ensures
        SessionStateView::alice(ident, base, bundle, ratchet).within_limits(),
        SessionStateView::bob(ident, prekey, peer, peer_base).within_limits(),
{
}

/// A state keeps the limits whatever is sent.
pub proof fn law_sent_keeps_limits(s: SessionStateView)
    requires
        s.within_limits(),
    ensures
        s.sent().within_limits(),
{
}

/// A state keeps the limits whatever arrives.
pub proof fn law_message_keeps_limits(
    s: SessionStateView,
    env: EnvelopeView,
    m: CipherMessageView,
    fresh: KeyPairView,
)
    requires
        s.within_limits(),
    ensures
        s.decrypt_state(env, m, fresh).within_limits(),
{
    let located = s.located(m.ratchet_key, fresh);
    if find_chain(s.recv_chains, m.ratchet_key) is None {
        lemma_not_found(s.recv_chains, m.ratchet_key);
    }
    assert(located.within_limits());
    lemma_other_keys_absent(s.skipped_msgkeys, m.counter);
    let after = s.decrypt_state(env, m, fresh);
    assert forall|i: int, j: int|
        #![trigger after.recv_chains[i], after.recv_chains[j]]
        0 <= i < j < after.recv_chains.len() implies after.recv_chains[i].ratchet_key
        != after.recv_chains[j].ratchet_key by {
        assert(after.recv_chains[i].ratchet_key == located.recv_chains[i].ratchet_key);
        assert(after.recv_chains[j].ratchet_key == located.recv_chains[j].ratchet_key);
    }
}

proof fn lemma_found(chains: Seq<RecvChainView>, chain: RecvChainView)
    requires
        chains.contains(chain),
        forall|i: int, j: int|
            #![trigger chains[i], chains[j]]
            0 <= i < j < chains.len() ==> chains[i].ratchet_key != chains[j].ratchet_key,
    ensures
        find_chain(chains, chain.ratchet_key) == Some(chain),
    decreases chains.len(),
{
    let i = choose|i: int| 0 <= i < chains.len() && chains[i] == chain;
    if i > 0 {
        let rest = chains.drop_first();
        assert(chains[0].ratchet_key != chains[i].ratchet_key);
        assert(rest[i - 1] == chain);
        assert forall|k: int, l: int|
            #![trigger rest[k], rest[l]]
            0 <= k < l < rest.len() implies rest[k].ratchet_key != rest[l].ratchet_key by {
            assert(chains[k + 1].ratchet_key != chains[l + 1].ratchet_key);
        }
        lemma_found(rest, chain);
    }
}

/// In a state within its limits, every chain that is there before and after a message
/// keeps its position or moves forward. It moves exactly where it is the chain under
/// the ratchet key of a message that yields a text and does not lie behind.
pub proof fn law_every_chain_moves_forward<E>(
    s: SessionStateView,
    env: EnvelopeView,
    m: CipherMessageView,
    fresh: KeyPairView,
    before: RecvChainView,
    after: RecvChainView,
)
    requires
        s.within_limits(),
        m.counter < u32::MAX,
        s.recv_chains.contains(before),
        s.decrypt_state(env, m, fresh).recv_chains.contains(after),
        after.ratchet_key == before.ratchet_key,
    ensures
        after.chain_key.idx >= before.chain_key.idx,
        after.chain_key.idx > before.chain_key.idx <==> before.ratchet_key == m.ratchet_key
            && s.decrypt_result::<E>(env, m) is Ok && m.counter >= before.chain_key.idx,
{
    law_message_keeps_limits(s, env, m, fresh);
    lemma_found(s.recv_chains, before);
    lemma_found(s.decrypt_state(env, m, fresh).recv_chains, after);
    law_chain_moves_forward::<E>(s, env, m, fresh, before.ratchet_key);
}

/// The states of a session that was opened are those that were there, but for the
/// one that a message was decrypted with.
proof fn lemma_opened_states<E>(
    s: SessionView,
    env: EnvelopeView,
    m: CipherMessageView,
    after: SessionView,
)
    requires
        s.session_states.len() > 0,
        s.opened::<E>(env, m, after),
    ensures
        after.session_states.len() == s.session_states.len(),
        after.local_identity == s.local_identity,
        forall|k: int|
            #![trigger after.session_states[k]]
            0 <= k < after.session_states.len() ==> {
                ||| exists|j: int|
                    0 <= j < s.session_states.len() && after.session_states[k]
                        == #[trigger] s.session_states[j]
                ||| exists|j: int, fresh: KeyPairView|
                    0 <= j < s.session_states.len() && s.session_states[j].draws(
                        m.ratchet_key,
                        fresh,
                    ) && after.session_states[k] == #[trigger] s.session_states[j].decrypt_state(
                        env,
                        m,
                        fresh,
                    )
            },
{
    lemma_last_opening_is_ok::<E>(s.session_states, env, m);
    if let Some(i) = opening::<E>(s.session_states, env, m) {
        assert(0 <= i < s.session_states.len());
        let rest = s.session_states.remove(i);
        let fresh = choose|fresh: KeyPairView|
            s.session_states[i].draws(m.ratchet_key, fresh) && after == s.promoted(
                i,
                #[trigger] s.session_states[i].decrypt_state(env, m, fresh),
            );
        assert forall|k: int| #![trigger after.session_states[k]]
            0 < k < after.session_states.len() implies exists|j: int|
            0 <= j < s.session_states.len() && after.session_states[k]
                == #[trigger] s.session_states[j] by {
            assert(after.session_states[k] == rest[k - 1]);
            if k - 1 < i {
                assert(rest[k - 1] == s.session_states[k - 1]);
            } else {
                assert(rest[k - 1] == s.session_states[k]);
            }
        }
    } else {
        assert forall|k: int| #![trigger after.session_states[k]]
            0 <= k < after.session_states.len() implies exists|j: int|
            0 <= j < s.session_states.len() && after.session_states[k]
                == #[trigger] s.session_states[j] by {
            assert(after.session_states[k] == s.session_states[k]);
        }
    }
}

proof fn lemma_opened_keeps_limits<E>(
    s: SessionView,
    env: EnvelopeView,
    m: CipherMessageView,
    after: SessionView,
)
    requires
        s.session_states.len() > 0,
        s.opened::<E>(env, m, after),
        s.within_limits(),
    ensures
        after.within_limits(),
{
    lemma_opened_states::<E>(s, env, m, after);
    assert forall|k: int| 0 <= k < after.session_states.len() implies (
    #[trigger] after.session_states[k]).within_limits() by {
        if !(exists|j: int|
            0 <= j < s.session_states.len() && after.session_states[k]
                == #[trigger] s.session_states[j]) {
            let (j, fresh) = choose|j: int, fresh: KeyPairView|
                0 <= j < s.session_states.len() && s.session_states[j].draws(m.ratchet_key, fresh)
                    && after.session_states[k] == #[trigger] s.session_states[j].decrypt_state(
                    env,
                    m,
                    fresh,
                );
            law_message_keeps_limits(s.session_states[j], env, m, fresh);
        }
    }
}

proof fn lemma_opened_keeps_validity<E>(
    s: SessionView,
    env: EnvelopeView,
    m: CipherMessageView,
    after: SessionView,
)
    requires
        s.session_states.len() > 0,
        s.opened::<E>(env, m, after),
        s.valid(),
    ensures
        after.valid(),
{
    lemma_opened_states::<E>(s, env, m, after);
}

/// Whether `after` is what a session became when its store answered `prekey`.
spec fn came_from<E>(
    s: SessionView,
    env: EnvelopeView,
    m: PreKeyMessageView,
    prekey: Option<PreKey>,
    after: SessionView,
) -> bool {
    let unpacked = s.unpacked(m, prekey);
    after == unpacked || unpacked.session_states.len() > 0 && unpacked.opened::<E>(
        env,
        m.message,
        after,
    )
}

/// A message that names a prekey changes a session only by way of what the store
/// answered.
proof fn lemma_came_from<E, S: PreKeyStore<E>>(
    s: SessionView,
    store: S,
    env: EnvelopeView,
    m: PreKeyMessageView,
    after: SessionView,
    store_after: S,
    r: Result<Seq<u8>, DecryptError<E>>,
) -> (prekey: Option<PreKey>)
    requires
        s.provided::<E, S>(store, env),
        s.received::<E, S>(store, env, after, store_after, r),
        env.message == MessageView::Keyed(m),
        after != s,
    ensures
        store.lookup(PreKeyId { id: m.prekey_id }, Ok(prekey)),
        came_from::<E>(s, env, m, prekey, after),
{
    let answer = choose|answer: Result<Option<PreKey>, E>|
        #[trigger] store.lookup(PreKeyId { id: m.prekey_id }, answer) && s.received_keyed(
            store,
            env,
            m,
            answer,
            after,
            store_after,
            r,
        );
    answer->Ok_0
}

/// Where a session has a state, or a message yields a text, there is a state after
/// the message.
proof fn lemma_state_remains<E, S: PreKeyStore<E>>(
    s: SessionView,
    store: S,
    env: EnvelopeView,
    after: SessionView,
    store_after: S,
    r: Result<Seq<u8>, DecryptError<E>>,
)
    requires
        s.provided::<E, S>(store, env),
        s.received::<E, S>(store, env, after, store_after, r),
        r is Ok || s.session_states.len() > 0,
    ensures
        after.session_states.len() > 0,
{
    match env.message {
        MessageView::Plain(m) => {
            lemma_opened_states::<E>(s, env, m, after);
        },
        MessageView::Keyed(m) => {
            if m.identity_key == s.remote_identity {
                let answer = choose|answer: Result<Option<PreKey>, E>|
                    #[trigger] store.lookup(PreKeyId { id: m.prekey_id }, answer)
                        && s.received_keyed(store, env, m, answer, after, store_after, r);
                if let Ok(prekey) = answer {
                    let unpacked = s.unpacked(m, prekey);
                    if after != unpacked || r is Ok {
                        lemma_opened_states::<E>(unpacked, env, m.message, after);
                    }
                }
            }
        },
    }
}

/// A session keeps the limits whatever arrives: no more than so many states, and in
/// each no more than so many chains and kept keys. A session that has a state never
/// loses its last one, and one that a message yielded a text for has one.
pub proof fn law_session_keeps_limits<E, S: PreKeyStore<E>>(
    s: SessionView,
    store: S,
    env: EnvelopeView,
    after: SessionView,
    store_after: S,
    r: Result<Seq<u8>, DecryptError<E>>,
)
    requires
        s.within_limits(),
        s.provided::<E, S>(store, env),
        s.received::<E, S>(store, env, after, store_after, r),
    ensures
        after.within_limits(),
        s.session_states.len() > 0 ==> after.session_states.len() > 0,
        r is Ok ==> after.session_states.len() > 0,
{
    if r is Ok || s.session_states.len() > 0 {
        lemma_state_remains::<E, S>(s, store, env, after, store_after, r);
    }
    if after != s {
        match env.message {
            MessageView::Plain(m) => {
                lemma_opened_keeps_limits::<E>(s, env, m, after);
            },
            MessageView::Keyed(m) => {
                let answer = lemma_came_from::<E, S>(s, store, env, m, after, store_after, r);
                let unpacked = s.unpacked(m, answer);
                assert(unpacked.within_limits());
                if after != unpacked {
                    lemma_opened_keeps_limits::<E>(unpacked, env, m.message, after);
                }
            },
        }
    }
}

/// A session keeps the limits and its states whatever is sent, and the session that a
/// peer starts keeps the limits and has a state.
pub proof fn law_session_is_within_limits(
    s: SessionView,
    ident: KeyPairView,
    bundle: PreKeyBundleView,
    base: KeyPairView,
    ratchet: KeyPairView,
)
    requires
        s.within_limits(),
        s.session_states.len() > 0,
    ensures
        s.sent().within_limits(),
        s.sent().session_states.len() == s.session_states.len(),
        SessionView::alice(ident, bundle, base, ratchet).within_limits(),
        SessionView::alice(ident, bundle, base, ratchet).session_states.len() > 0,
        SessionView::blank(ident, bundle.identity_key).within_limits(),
{
    law_sent_keeps_limits(s.session_states[0]);
}

/// Whether a session is one that a peer starts, from a prekey or from a message that
/// yielded a text.
pub open spec fn started<E, S: PreKeyStore<E>>(s: SessionView) -> bool {
    ||| exists|
        ident: KeyPairView,
        bundle: PreKeyBundleView,
        base: KeyPairView,
        ratchet: KeyPairView,
    |
        s == #[trigger] SessionView::alice(ident, bundle, base, ratchet)
    ||| exists|
        ident: KeyPairView,
        peer: Seq<u8>,
        store: S,
        env: EnvelopeView,
        store_after: S,
        text: Seq<u8>,
    |
        SessionView::blank(ident, peer).provided::<E, S>(store, env) && #[trigger] (
        SessionView::blank(ident, peer)).received::<E, S>(store, env, s, store_after, Ok(text))
}

/// Whether a session may become `after` in one step: a text is sent, an envelope
/// arrives, or the session is written as bytes and read again.
pub open spec fn step<E, S: PreKeyStore<E>>(s: SessionView, after: SessionView) -> bool {
    ||| after == s.sent()
    ||| exists|
        store: S,
        env: EnvelopeView,
        store_after: S,
        r: Result<Seq<u8>, DecryptError<E>>,
    |
        s.provided::<E, S>(store, env) && #[trigger] s.received::<E, S>(
            store,
            env,
            after,
            store_after,
            r,
        )
    ||| Session::legal(s) && Session::legal(after) && Session::bytes(after) == Session::bytes(s)
}

/// However a session is used from its start on, it has a state to encrypt with, and
/// keeps the limits.
pub proof fn law_session_is_never_empty<E, S: PreKeyStore<E>>(trace: Seq<SessionView>, n: int)
    requires
        0 <= n < trace.len(),
        started::<E, S>(trace[0]),
        forall|i: int|
            0 <= i < trace.len() - 1 ==> step::<E, S>(#[trigger] trace[i], trace[i + 1]),
    ensures
        1 <= trace[n].session_states.len() <= MAX_SESSION_STATES,
        trace[n].within_limits(),
    decreases n,
{
    if n == 0 {
        let s = trace[0];
        if exists|
            ident: KeyPairView,
            peer: Seq<u8>,
            store: S,
            env: EnvelopeView,
            store_after: S,
            text: Seq<u8>,
        |
            SessionView::blank(ident, peer).provided::<E, S>(store, env) && #[trigger] (
            SessionView::blank(ident, peer)).received::<E, S>(
                store,
                env,
                s,
                store_after,
                Ok(text),
            ) {
            let (ident, peer, store, env, store_after, text) = choose|
                ident: KeyPairView,
                peer: Seq<u8>,
                store: S,
                env: EnvelopeView,
                store_after: S,
                text: Seq<u8>,
            |
                SessionView::blank(ident, peer).provided::<E, S>(store, env) && #[trigger] (
                SessionView::blank(ident, peer)).received::<E, S>(
                    store,
                    env,
                    s,
                    store_after,
                    Ok(text),
                );
            law_session_keeps_limits::<E, S>(
                SessionView::blank(ident, peer),
                store,
                env,
                s,
                store_after,
                Ok(text),
            );
        }
    } else {
        law_session_is_never_empty::<E, S>(trace, n - 1);
        let s = trace[n - 1];
        let after = trace[n];
        assert(step::<E, S>(s, trace[n - 1 + 1]));
        if after == s.sent() {
            law_sent_keeps_limits(s.session_states[0]);
        } else if Session::legal(s) && Session::legal(after) && Session::bytes(after)
            == Session::bytes(s) {
            law_bytes_determine_value::<Session>(after, s);
        } else {
            let (store, env, store_after, r) = choose|
                store: S,
                env: EnvelopeView,
                store_after: S,
                r: Result<Seq<u8>, DecryptError<E>>,
            |
                s.provided::<E, S>(store, env) && #[trigger] s.received::<E, S>(
                    store,
                    env,
                    after,
                    store_after,
                    r,
                );
            law_session_keeps_limits::<E, S>(s, store, env, after, store_after, r);
        }
    }
}

/// The key pairs of a session stay such whatever is sent, and those of a session
/// that a peer starts are such.
pub proof fn law_session_is_valid(
    s: SessionView,
    ident: KeyPairView,
    bundle: PreKeyBundleView,
    base: KeyPairView,
    ratchet: KeyPairView,
)
    requires
        s.valid(),
        s.session_states.len() > 0,
        ident.valid(),
        ratchet.valid(),
    ensures
        s.sent().valid(),
        SessionView::alice(ident, bundle, base, ratchet).valid(),
        SessionView::blank(ident, bundle.identity_key).valid(),
{
}

/// The key pairs of a session stay such, as long as those in the store are.
pub proof fn law_session_stays_valid<E, S: PreKeyStore<E>>(
    s: SessionView,
    store: S,
    env: EnvelopeView,
    after: SessionView,
    store_after: S,
    r: Result<Seq<u8>, DecryptError<E>>,
)
    requires
        s.valid(),
        s.provided::<E, S>(store, env),
        s.received::<E, S>(store, env, after, store_after, r),
        forall|id: PreKeyId, prekey: PreKey|
            #[trigger] store.lookup(id, Ok(Some(prekey))) ==> prekey@.key_pair.valid(),
    ensures
        after.valid(),
{
    if after != s {
        match env.message {
            MessageView::Plain(m) => {
                lemma_opened_keeps_validity::<E>(s, env, m, after);
            },
            MessageView::Keyed(m) => {
                let answer = lemma_came_from::<E, S>(s, store, env, m, after, store_after, r);
                let unpacked = s.unpacked(m, answer);
                assert(unpacked.valid());
                if after != unpacked {
                    lemma_opened_keeps_validity::<E>(unpacked, env, m.message, after);
                }
            },
        }
    }
}

} // verus!
