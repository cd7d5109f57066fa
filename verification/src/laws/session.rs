//! What holds of the sessions of two peers.
use vstd::prelude::*;

use crate::keys::{KeyPairView, PreKey, PreKeyId, MAX_PREKEY_ID};
#[allow(unused_imports)]
use crate::laws::state::{
    ahead, behind_error, bundle_of, follows, kept_keys_refuse, law_answer_follows,
    law_behind_is_refused, law_handshake_agrees, law_kept_key_opens, law_new_chain_is_expected,
    law_received_is_in_step, law_replay_is_refused, law_sent_is_received, lemma_committed_find,
    lemma_first_staged, lemma_no_keys, lemma_passed_over,
};
use crate::message::{CipherMessageView, EnvelopeView, MessageView};
#[allow(unused_imports)]
use crate::session::chain::dh_ratchet;
use crate::session::error::DecryptError;
#[allow(unused_imports)]
use crate::session::state::{
    find_chain, find_keys, other_keys, too_old, SessionStateView, MAX_COUNTER_GAP,
};
#[allow(unused_imports)]
use crate::session::{last_opening, opening, PreKeyStore, SessionView};

verus! {

/// Where a state behind the first yields a text, the last such state does not stand
/// before it.
proof fn lemma_last_opening<E>(
    states: Seq<SessionStateView>,
    env: EnvelopeView,
    m: CipherMessageView,
    j: int,
)
    requires
        0 < j < states.len(),
        states[j].decrypt_result::<E>(env, m) is Ok,
    ensures
        last_opening::<E>(states, env, m) matches Some(i) && j <= i < states.len()
            && states[i].decrypt_result::<E>(env, m) is Ok,
    decreases states.len(),
{
    if !(states.last().decrypt_result::<E>(env, m) is Ok) {
        lemma_last_opening::<E>(states.drop_last(), env, m, j);
    }
}

proof fn lemma_none_opening<E>(
    states: Seq<SessionStateView>,
    env: EnvelopeView,
    m: CipherMessageView,
)
    requires
        forall|k: int|
            0 < k < states.len() ==> (#[trigger] states[k]).decrypt_result::<E>(env, m) is Err,
    ensures
        last_opening::<E>(states, env, m) is None,
    decreases states.len(),
{
    if states.len() > 1 {
        let rest = states.drop_last();
        assert forall|k: int| 0 < k < rest.len() implies (#[trigger] rest[k]).decrypt_result::<E>(
            env,
            m,
        ) is Err by {
            assert(rest[k] == states[k]);
        }
        lemma_none_opening::<E>(rest, env, m);
    }
}

/// The state that a message is decrypted with is one of the states, and yields a
/// text.
proof fn lemma_opening<E>(
    states: Seq<SessionStateView>,
    env: EnvelopeView,
    m: CipherMessageView,
)
    requires
        states.len() > 0,
    ensures
        opening::<E>(states, env, m) matches Some(i) ==> 0 <= i < states.len()
            && states[i].decrypt_result::<E>(env, m) is Ok,
        opening::<E>(states, env, m) is None ==> states[0].decrypt_result::<E>(env, m) is Err,
{
    lemma_last_opening_is_ok::<E>(states, env, m);
}

pub(crate) proof fn lemma_last_opening_is_ok<E>(
    states: Seq<SessionStateView>,
    env: EnvelopeView,
    m: CipherMessageView,
)
    ensures
        last_opening::<E>(states, env, m) matches Some(i) ==> 0 < i < states.len()
            && states[i].decrypt_result::<E>(env, m) is Ok,
    decreases states.len(),
{
    if states.len() > 1 {
        lemma_last_opening_is_ok::<E>(states.drop_last(), env, m);
    }
}

// Texts that are received

/// A text that one session sent is received by the other, where its first state
/// expects it; then the next text is the next one that is expected, and the
/// receiver names no prekey any more.
pub proof fn law_text_is_received<E>(
    sender: SessionView,
    receiver: SessionView,
    gap: nat,
    plain: Seq<u8>,
    after: SessionView,
)
    requires
        receiver.session_states.len() > 0,
        ahead(receiver.session_states[0], sender.session_states[0], gap),
        gap <= MAX_COUNTER_GAP,
        receiver.opened::<E>(
            sender.envelope(plain),
            sender.envelope(plain).message.cipher(),
            after,
        ),
    ensures
        receiver.open_result::<E>(
            sender.envelope(plain),
            sender.envelope(plain).message.cipher(),
        ) == Ok::<Seq<u8>, DecryptError<E>>(plain),
        after.session_states.len() == receiver.session_states.len(),
        ahead(after.session_states[0], sender.session_states[0].sent(), 0),
        after.pending_prekey is None,
{
    let s = sender.session_states[0];
    let ident = sender.local_identity.public;
    let env = sender.envelope(plain);
    let m = env.message.cipher();
    let r = receiver.session_states[0];
    law_sent_is_received::<E>(r, s, gap, ident, sender.pending_prekey, plain);
    let fresh = choose|fresh: KeyPairView|
        r.draws(m.ratchet_key, fresh) && after == receiver.promoted(
            0,
            #[trigger] r.decrypt_state(env, m, fresh),
        );
    law_received_is_in_step(r, s, gap, ident, sender.pending_prekey, plain, fresh);
}

/// A text that one session sent is received by the other, where any of its states
/// expects it and no other state takes it for its own. That state stands in front
/// from now on, and the others keep their order.
pub proof fn law_text_is_received_by_any_state<E>(
    sender: SessionView,
    receiver: SessionView,
    j: int,
    gap: nat,
    plain: Seq<u8>,
    after: SessionView,
)
    requires
        0 <= j < receiver.session_states.len(),
        ahead(receiver.session_states[j], sender.session_states[0], gap),
        gap <= MAX_COUNTER_GAP,
        forall|k: int|
            0 <= k < receiver.session_states.len() && k != j ==> (
            #[trigger] receiver.session_states[k]).decrypt_result::<E>(
                sender.envelope(plain),
                sender.envelope(plain).message.cipher(),
            ) is Err,
        receiver.opened::<E>(
            sender.envelope(plain),
            sender.envelope(plain).message.cipher(),
            after,
        ),
    ensures
        receiver.open_result::<E>(
            sender.envelope(plain),
            sender.envelope(plain).message.cipher(),
        ) == Ok::<Seq<u8>, DecryptError<E>>(plain),
        ahead(after.session_states[0], sender.session_states[0].sent(), 0),
        after.session_states.drop_first() == receiver.session_states.remove(j),
        after.pending_prekey is None,
{
    let s = sender.session_states[0];
    let ident = sender.local_identity.public;
    let env = sender.envelope(plain);
    let m = env.message.cipher();
    let r = receiver.session_states[j];
    law_sent_is_received::<E>(r, s, gap, ident, sender.pending_prekey, plain);
    if j > 0 {
        lemma_last_opening::<E>(receiver.session_states, env, m, j);
    }
    assert(opening::<E>(receiver.session_states, env, m) == Some(j));
    let fresh = choose|fresh: KeyPairView|
        r.draws(m.ratchet_key, fresh) && after == receiver.promoted(
            j,
            #[trigger] r.decrypt_state(env, m, fresh),
        );
    law_received_is_in_step(r, s, gap, ident, sender.pending_prekey, plain, fresh);
    assert(after.session_states.drop_first() =~= receiver.session_states.remove(j));
}

/// Whatever the other states make of it, a text that any state expects is not
/// refused.
pub proof fn law_expected_is_not_refused<E>(
    sender: SessionView,
    receiver: SessionView,
    j: int,
    gap: nat,
    plain: Seq<u8>,
)
    requires
        0 <= j < receiver.session_states.len(),
        ahead(receiver.session_states[j], sender.session_states[0], gap),
        gap <= MAX_COUNTER_GAP,
    ensures
        receiver.open_result::<E>(
            sender.envelope(plain),
            sender.envelope(plain).message.cipher(),
        ) is Ok,
{
    let env = sender.envelope(plain);
    let m = env.message.cipher();
    law_sent_is_received::<E>(
        receiver.session_states[j],
        sender.session_states[0],
        gap,
        sender.local_identity.public,
        sender.pending_prekey,
        plain,
    );
    if j > 0 {
        lemma_last_opening::<E>(receiver.session_states, env, m, j);
    }
}

/// A session after `n` texts were sent.
pub open spec fn sent_times(s: SessionView, n: nat) -> SessionView
    decreases n,
{
    if n == 0 {
        s
    } else {
        sent_times(s, (n - 1) as nat).sent()
    }
}

proof fn lemma_sent_times(s: SessionView, n: nat)
    requires
        s.session_states.len() > 0,
    ensures
        ({
            let t = sent_times(s, n);
            &&& t.session_states.len() == s.session_states.len()
            &&& t.local_identity == s.local_identity
            &&& t.pending_prekey == s.pending_prekey
            &&& t.session_states[0] == (SessionStateView {
                send_chain: t.session_states[0].send_chain,
                ..s.session_states[0]
            })
            &&& t.session_states[0].send_chain.ratchet_key
                == s.session_states[0].send_chain.ratchet_key
            &&& t.session_states[0].send_chain.chain_key
                == s.session_states[0].send_chain.chain_key.advanced(n)
        }),
    decreases n,
{
    if n > 0 {
        lemma_sent_times(s, (n - 1) as nat);
    }
}

/// The store gives out a prekey under its number, and lets go of it.
pub open spec fn has_prekey<E, S: PreKeyStore<E>>(store: S, prekey: PreKey) -> bool {
    &&& forall|answer: Result<Option<PreKey>, E>|
        #[trigger] store.lookup(prekey.key_id, answer) ==> answer == Ok::<Option<PreKey>, E>(
            Some(prekey),
        )
    &&& forall|after: S, outcome: Result<(), E>|
        #[trigger] store.removal(prekey.key_id, after, outcome) ==> outcome is Ok
}

/// The store has no prekey with a number, and does not mind to be asked to let go
/// of it.
pub open spec fn lacks_prekey<E, S: PreKeyStore<E>>(store: S, id: PreKeyId) -> bool {
    &&& forall|answer: Result<Option<PreKey>, E>|
        #[trigger] store.lookup(id, answer) ==> answer == Ok::<Option<PreKey>, E>(None)
    &&& forall|after: S, outcome: Result<(), E>|
        #[trigger] store.removal(id, after, outcome) ==> outcome is Ok
}

/// A peer receives each of the texts that another peer sends it before it has an
/// answer, whichever arrives first, as long as its store has the prekey that the
/// session was started with. What it answers is then expected by the other peer.
pub proof fn law_session_starts<E, S: PreKeyStore<E>>(
    alice: KeyPairView,
    base: KeyPairView,
    ratchet: KeyPairView,
    receiver: SessionView,
    prekey: PreKey,
    n: nat,
    plain: Seq<u8>,
    store: S,
    after: SessionView,
    store_after: S,
    r: Result<Seq<u8>, DecryptError<E>>,
)
    requires
        alice.valid(),
        base.valid(),
        ratchet.valid(),
        receiver.local_identity.valid(),
        prekey@.key_pair.valid(),
        receiver.remote_identity == alice.public,
        n <= MAX_COUNTER_GAP,
        has_prekey::<E, S>(store, prekey),
        ({
            let pk = bundle_of(receiver.local_identity, prekey@.key_id, prekey@.key_pair);
            let sender = sent_times(SessionView::alice(alice, pk, base, ratchet), n);
            receiver.received::<E, S>(store, sender.envelope(plain), after, store_after, r)
        }),
    ensures
        ({
            let pk = bundle_of(receiver.local_identity, prekey@.key_id, prekey@.key_pair);
            let sender = sent_times(SessionView::alice(alice, pk, base, ratchet), n);
            &&& r == Ok::<Seq<u8>, DecryptError<E>>(plain)
            &&& ahead(after.session_states[0], sender.session_states[0].sent(), 0)
            &&& follows(sender.session_states[0], after.session_states[0], 0)
            &&& after.pending_prekey is None
        }),
{
    let pk = bundle_of(receiver.local_identity, prekey@.key_id, prekey@.key_pair);
    let first = SessionView::alice(alice, pk, base, ratchet);
    let sender = sent_times(first, n);
    lemma_sent_times(first, n);
    law_handshake_agrees(
        alice,
        base,
        ratchet,
        receiver.local_identity,
        prekey@.key_id,
        prekey@.key_pair,
    );
    let a0 = SessionStateView::alice(alice, base, pk, ratchet);
    let b = SessionStateView::bob(
        receiver.local_identity,
        prekey@.key_pair,
        alice.public,
        base.public,
    );
    let a = sender.session_states[0];
    assert(first.session_states[0] == a0);
    assert(follows(b, a, n)) by {
        let ck = dh_ratchet(
            b.root_key,
            b.send_chain.ratchet_key.secret,
            a0.send_chain.ratchet_key.public,
        ).1;
        assert(ck.advanced(0) == ck);
    }
    law_new_chain_is_expected(b, a, n);
    let env = sender.envelope(plain);
    let m = env.message->Keyed_0;
    assert(prekey.key_id == (PreKeyId { id: m.prekey_id }));
    let unpacked = receiver.unpacked(m, Some(prekey));
    assert(unpacked.session_states[0] == b);
    assert(unpacked.opened::<E>(env, m.message, after));
    assert(r == unpacked.open_result::<E>(env, m.message));
    law_text_is_received::<E>(sender, unpacked, n, plain, after);
    law_sent_is_received::<E>(b, a, n, alice.public, sender.pending_prekey, plain);
    let fresh = choose|fresh: KeyPairView|
        b.draws(m.message.ratchet_key, fresh) && after == unpacked.promoted(
            0,
            #[trigger] b.decrypt_state(env, m.message, fresh),
        );
    law_answer_follows(b, a, n, env, m.message, fresh);
}

/// With a prekey that its store has, a peer can decrypt what names it, whether or
/// not it has a state already.
pub proof fn law_prekey_provides<E, S: PreKeyStore<E>>(
    s: SessionView,
    store: S,
    env: EnvelopeView,
    prekey: PreKey,
)
    requires
        has_prekey::<E, S>(store, prekey),
        env.message matches MessageView::Keyed(m) && m.prekey_id == prekey@.key_id,
    ensures
        s.provided::<E, S>(store, env),
{
    assert(prekey.key_id == (PreKeyId { id: prekey@.key_id }));
}

/// Two peers can go on in turn: the first text under a new ratchet key is received,
/// and from then on the receiver follows the sender. So what is answered is received
/// in the same way.
pub proof fn law_conversation_goes_on<E>(
    sender: SessionView,
    receiver: SessionView,
    n: nat,
    plain: Seq<u8>,
    after: SessionView,
)
    requires
        sender.session_states.len() > 0,
        receiver.session_states.len() > 0,
        sender.session_states[0].valid(),
        follows(receiver.session_states[0], sender.session_states[0], n),
        find_chain(
            receiver.session_states[0].recv_chains,
            sender.session_states[0].send_chain.ratchet_key.public,
        ) is None,
        n <= MAX_COUNTER_GAP,
        receiver.opened::<E>(
            sender.envelope(plain),
            sender.envelope(plain).message.cipher(),
            after,
        ),
    ensures
        receiver.open_result::<E>(
            sender.envelope(plain),
            sender.envelope(plain).message.cipher(),
        ) == Ok::<Seq<u8>, DecryptError<E>>(plain),
        after.session_states.len() > 0,
        after.session_states[0].valid(),
        follows(sender.sent().session_states[0], after.session_states[0], 0),
{
    let s = sender.session_states[0];
    let r = receiver.session_states[0];
    let env = sender.envelope(plain);
    let m = env.message.cipher();
    law_new_chain_is_expected(r, s, n);
    law_text_is_received::<E>(sender, receiver, n, plain, after);
    law_sent_is_received::<E>(
        r,
        s,
        n,
        sender.local_identity.public,
        sender.pending_prekey,
        plain,
    );
    let fresh = choose|fresh: KeyPairView|
        r.draws(m.ratchet_key, fresh) && after == receiver.promoted(
            0,
            #[trigger] r.decrypt_state(env, m, fresh),
        );
    law_answer_follows(r, s, n, env, m, fresh);
}

/// Once the prekey is used up, the texts that still name it are received like any
/// other.
pub proof fn law_used_prekey_is_passed_over<E, S: PreKeyStore<E>>(
    sender: SessionView,
    receiver: SessionView,
    gap: nat,
    plain: Seq<u8>,
    store: S,
    after: SessionView,
    store_after: S,
    r: Result<Seq<u8>, DecryptError<E>>,
)
    requires
        receiver.session_states.len() > 0,
        ahead(receiver.session_states[0], sender.session_states[0], gap),
        gap <= MAX_COUNTER_GAP,
        receiver.remote_identity == sender.local_identity.public,
        sender.pending_prekey matches Some((id, _)) ==> lacks_prekey::<E, S>(
            store,
            PreKeyId { id },
        ),
        receiver.received::<E, S>(store, sender.envelope(plain), after, store_after, r),
    ensures
        r == Ok::<Seq<u8>, DecryptError<E>>(plain),
        after.session_states.len() == receiver.session_states.len(),
        ahead(after.session_states[0], sender.session_states[0].sent(), 0),
        after.pending_prekey is None,
{
    let env = sender.envelope(plain);
    assert(receiver.opened::<E>(env, env.message.cipher(), after) && r == receiver.open_result::<E>(
        env,
        env.message.cipher(),
    ));
    law_text_is_received::<E>(sender, receiver, gap, plain, after);
}

proof fn lemma_promoted_others<E>(
    s: SessionView,
    env: EnvelopeView,
    m: CipherMessageView,
    j: int,
    state: SessionStateView,
)
    requires
        0 <= j < s.session_states.len(),
        forall|k: int|
            0 <= k < s.session_states.len() && k != j ==> (
            #[trigger] s.session_states[k]).decrypt_result::<E>(env, m) is Err,
    ensures
        last_opening::<E>(s.promoted(j, state).session_states, env, m) is None,
{
    let after = s.promoted(j, state).session_states;
    assert forall|k: int| 0 < k < after.len() implies (#[trigger] after[k]).decrypt_result::<E>(
        env,
        m,
    ) is Err by {
        if k <= j {
            assert(after[k] == s.session_states[k - 1]);
        } else {
            assert(after[k] == s.session_states[k]);
        }
    }
    lemma_none_opening::<E>(after, env, m);
}

/// An envelope that yielded a text is refused when it is opened again, and changes
/// nothing, where no other state takes it for its own and no kept key opens it. There
/// is such a key at most where one of another chain was kept for the same position.
pub proof fn law_opened_again_is_refused<E>(
    s: SessionView,
    env: EnvelopeView,
    m: CipherMessageView,
    j: int,
    after: SessionView,
)
    requires
        0 <= j < s.session_states.len(),
        s.session_states[j].decrypt_result::<E>(env, m) is Ok,
        forall|k: int|
            0 <= k < s.session_states.len() && k != j ==> (
            #[trigger] s.session_states[k]).decrypt_result::<E>(env, m) is Err,
        s.opened::<E>(env, m, after),
    ensures
        ({
            let kept = after.session_states[0].skipped_msgkeys;
            if m.counter == u32::MAX {
                &&& after.open_result::<E>(env, m) == Err::<Seq<u8>, DecryptError<E>>(
                    DecryptError::TooDistantFuture,
                )
                &&& forall|again: SessionView|
                    after.opened::<E>(env, m, again) ==> again == after
            } else {
                &&& kept_keys_refuse(kept, env, m.counter) ==> {
                    &&& after.open_result::<E>(env, m) == Err::<Seq<u8>, DecryptError<E>>(
                        behind_error(kept, m.counter),
                    )
                    &&& forall|again: SessionView|
                        after.opened::<E>(env, m, again) ==> again == after
                }
                &&& m.counter < s.session_states[j].chain_for(m.ratchet_key).chain_key.idx
                    || find_keys(s.session_states[j].skipped_msgkeys, m.counter) is None
                    ==> find_keys(kept, m.counter) is None
            }
        }),
{
    let states = s.session_states;
    if j > 0 {
        lemma_last_opening::<E>(states, env, m, j);
    }
    assert(opening::<E>(states, env, m) == Some(j));
    let fresh = choose|fresh: KeyPairView|
        states[j].draws(m.ratchet_key, fresh) && after == s.promoted(
            j,
            #[trigger] states[j].decrypt_state(env, m, fresh),
        );
    let state = states[j].decrypt_state(env, m, fresh);
    law_replay_is_refused::<E>(states[j], env, m, fresh);
    lemma_promoted_others::<E>(s, env, m, j, state);
    assert(after.session_states[0] == state);
}

/// A message that lies behind its chain in the first state is refused, and changes
/// nothing, where no other state takes it for its own and no kept key opens it.
pub proof fn law_behind_is_refused_by_session<E>(
    s: SessionView,
    env: EnvelopeView,
    m: CipherMessageView,
    after: SessionView,
)
    requires
        s.session_states.len() > 0,
        m.counter < s.session_states[0].chain_for(m.ratchet_key).chain_key.idx,
        kept_keys_refuse(s.session_states[0].skipped_msgkeys, env, m.counter),
        forall|k: int|
            0 < k < s.session_states.len() ==> (
            #[trigger] s.session_states[k]).decrypt_result::<E>(env, m) is Err,
        s.opened::<E>(env, m, after),
    ensures
        s.open_result::<E>(env, m) == Err::<Seq<u8>, DecryptError<E>>(
            behind_error(s.session_states[0].skipped_msgkeys, m.counter),
        ),
        after == s,
{
    lemma_none_opening::<E>(s.session_states, env, m);
    law_behind_is_refused::<E>(s.session_states[0], env, m, s.local_identity);
}

// Texts that arrive late

/// A text whose key a state has kept is received, unless the first of the kept keys
/// is for a later position. The first state needs no more than that; for another
/// state, no state may take the text for its own. Of the kept keys, those for its
/// position go, and nothing else changes in the state.
pub proof fn law_late_text_is_received<E>(
    late: SessionView,
    receiver: SessionView,
    j: int,
    plain: Seq<u8>,
    after: SessionView,
)
    requires
        0 <= j < receiver.session_states.len(),
        late.session_states[0].send_chain.chain_key.idx < receiver.session_states[j].chain_for(
            late.session_states[0].send_chain.ratchet_key.public,
        ).chain_key.idx,
        find_keys(
            receiver.session_states[j].skipped_msgkeys,
            late.session_states[0].send_chain.chain_key.idx,
        ) == Some(late.session_states[0].send_chain.chain_key.message_keys()),
        !too_old(
            receiver.session_states[j].skipped_msgkeys,
            late.session_states[0].send_chain.chain_key.idx,
        ),
        j == 0 || forall|k: int|
            0 <= k < receiver.session_states.len() && k != j ==> (
            #[trigger] receiver.session_states[k]).decrypt_result::<E>(
                late.envelope(plain),
                late.envelope(plain).message.cipher(),
            ) is Err,
        receiver.opened::<E>(late.envelope(plain), late.envelope(plain).message.cipher(), after),
    ensures
        receiver.open_result::<E>(
            late.envelope(plain),
            late.envelope(plain).message.cipher(),
        ) == Ok::<Seq<u8>, DecryptError<E>>(plain),
        after.session_states[0] == (SessionStateView {
            skipped_msgkeys: other_keys(
                receiver.session_states[j].skipped_msgkeys,
                late.session_states[0].send_chain.chain_key.idx,
            ),
            ..receiver.session_states[j]
        }),
        after.session_states.drop_first() == receiver.session_states.remove(j),
        after.pending_prekey is None,
{
    let env = late.envelope(plain);
    let m = env.message.cipher();
    let states = receiver.session_states;
    law_kept_key_opens::<E>(
        states[j],
        late.session_states[0],
        late.local_identity.public,
        late.pending_prekey,
        plain,
        late.local_identity,
    );
    if j > 0 {
        lemma_last_opening::<E>(states, env, m, j);
    }
    assert(opening::<E>(states, env, m) == Some(j));
    assert(after.session_states.drop_first() =~= states.remove(j));
}

/// A text that was passed over is received when it arrives after a later one, unless
/// the first of the kept keys is for a later position: then it is outdated, and
/// nothing changes, where no other state takes it for its own. Where no keys were
/// kept before, the text directly before the later one is received, and those before
/// that are outdated. No kept key of another chain may be for its position.
pub proof fn law_passed_over_text_is_received<E>(
    late: SessionView,
    sender: SessionView,
    receiver: SessionView,
    j: int,
    gap: nat,
    i: nat,
    plain: Seq<u8>,
    late_plain: Seq<u8>,
    after: SessionView,
)
    requires
        0 <= j < receiver.session_states.len(),
        ahead(receiver.session_states[j], late.session_states[0], i),
        ahead(receiver.session_states[j], sender.session_states[0], gap),
        late.session_states[0].send_chain.ratchet_key
            == sender.session_states[0].send_chain.ratchet_key,
        i < gap <= MAX_COUNTER_GAP,
        sender.session_states[0].send_chain.chain_key.idx < u32::MAX,
        find_keys(
            receiver.session_states[j].skipped_msgkeys,
            late.session_states[0].send_chain.chain_key.idx,
        ) is None,
        j == 0 || forall|k: int|
            0 <= k < receiver.session_states.len() && k != j ==> (
            #[trigger] receiver.session_states[k]).decrypt_result::<E>(
                sender.envelope(plain),
                sender.envelope(plain).message.cipher(),
            ) is Err,
        receiver.opened::<E>(
            sender.envelope(plain),
            sender.envelope(plain).message.cipher(),
            after,
        ),
    ensures
        ({
            let env = late.envelope(late_plain);
            let m = env.message.cipher();
            let outdated = too_old(
                after.session_states[0].skipped_msgkeys,
                late.session_states[0].send_chain.chain_key.idx,
            );
            &&& !outdated ==> after.open_result::<E>(env, m) == Ok::<Seq<u8>, DecryptError<E>>(
                late_plain,
            )
            &&& outdated && (forall|k: int|
                0 < k < after.session_states.len() ==> (
                #[trigger] after.session_states[k]).decrypt_result::<E>(env, m) is Err) ==> {
                &&& after.open_result::<E>(env, m) == Err::<Seq<u8>, DecryptError<E>>(
                    DecryptError::OutdatedMessage,
                )
                &&& forall|again: SessionView|
                    after.opened::<E>(env, m, again) ==> again == after
            }
            &&& receiver.session_states[j].skipped_msgkeys.len() == 0 ==> (outdated <==> i + 1
                < gap)
        }),
{
    let env = sender.envelope(plain);
    let m = env.message.cipher();
    let states = receiver.session_states;
    let s = sender.session_states[0];
    let l = late.session_states[0];
    let ident = sender.local_identity.public;
    law_sent_is_received::<E>(states[j], s, gap, ident, sender.pending_prekey, plain);
    if j > 0 {
        lemma_last_opening::<E>(states, env, m, j);
    }
    assert(opening::<E>(states, env, m) == Some(j));
    let fresh = choose|fresh: KeyPairView|
        states[j].draws(m.ratchet_key, fresh) && after == receiver.promoted(
            j,
            #[trigger] states[j].decrypt_state(env, m, fresh),
        );
    let state = states[j].decrypt_state(env, m, fresh);
    assert(after.session_states[0] == state);
    lemma_passed_over(states[j], l, s, gap, i, ident, sender.pending_prekey, plain, fresh);
    let ck = states[j].chain_for(m.ratchet_key).chain_key;
    lemma_no_keys(states[j].skipped_msgkeys, l.send_chain.chain_key.idx);
    lemma_committed_find(states[j].skipped_msgkeys, ck, gap, i);
    law_kept_key_opens::<E>(
        state,
        l,
        late.local_identity.public,
        late.pending_prekey,
        late_plain,
        fresh,
    );
    let late_env = late.envelope(late_plain);
    let late_m = late_env.message.cipher();
    if forall|k: int|
        0 < k < after.session_states.len() ==> (
        #[trigger] after.session_states[k]).decrypt_result::<E>(late_env, late_m) is Err {
        lemma_none_opening::<E>(after.session_states, late_env, late_m);
    }
    if states[j].skipped_msgkeys.len() == 0 {
        lemma_first_staged(states[j].skipped_msgkeys, ck, gap);
    }
}

// What an envelope leaves as it is

/// A message that names no prekey and yields no text changes nothing.
pub proof fn law_refused_changes_nothing<E, S: PreKeyStore<E>>(
    s: SessionView,
    store: S,
    env: EnvelopeView,
    after: SessionView,
    store_after: S,
    r: Result<Seq<u8>, DecryptError<E>>,
)
    requires
        s.session_states.len() > 0,
        env.message is Plain,
        s.received::<E, S>(store, env, after, store_after, r),
        r is Err,
    ensures
        after == s,
        store_after == store,
{
    lemma_opening::<E>(s.session_states, env, env.message.cipher());
}

/// A message that names a prekey and yields no text at most adds the state of that
/// prekey.
pub proof fn law_refused_adds_at_most_a_state<E, S: PreKeyStore<E>>(
    s: SessionView,
    store: S,
    env: EnvelopeView,
    after: SessionView,
    store_after: S,
    r: Result<Seq<u8>, DecryptError<E>>,
)
    requires
        s.provided::<E, S>(store, env),
        s.received::<E, S>(store, env, after, store_after, r),
        r is Err,
    ensures
        after == s || (env.message matches MessageView::Keyed(m) && exists|prekey: PreKey|
            after == #[trigger] s.unpacked(m, Some(prekey))),
{
    match env.message {
        MessageView::Plain(m) => {
            lemma_opening::<E>(s.session_states, env, m);
        },
        MessageView::Keyed(m) => {
            if m.identity_key == s.remote_identity {
                let answer = choose|answer: Result<Option<PreKey>, E>|
                    #[trigger] store.lookup(PreKeyId { id: m.prekey_id }, answer)
                        && s.received_keyed(store, env, m, answer, after, store_after, r);
                if let Ok(prekey) = answer {
                    let unpacked = s.unpacked(m, prekey);
                    if unpacked.session_states.len() > 0 {
                        lemma_opening::<E>(unpacked.session_states, env, m.message);
                    }
                    assert(after == unpacked);
                    if let Some(k) = prekey {
                        assert(after == s.unpacked(m, Some(k)));
                    }
                }
            }
        },
    }
}

/// A message from another identity than the one that a session is with is refused,
/// and changes nothing.
pub proof fn law_other_identity_is_refused<E, S: PreKeyStore<E>>(
    s: SessionView,
    store: S,
    env: EnvelopeView,
    after: SessionView,
    store_after: S,
    r: Result<Seq<u8>, DecryptError<E>>,
)
    requires
        env.message matches MessageView::Keyed(m) && m.identity_key != s.remote_identity,
        s.received::<E, S>(store, env, after, store_after, r),
    ensures
        r == Err::<Seq<u8>, _>(DecryptError::<E>::RemoteIdentityChanged),
        after == s,
        store_after == store,
{
}

/// The store keeps the prekey of last resort, and a message that names no prekey
/// leaves the whole store as it is.
pub proof fn law_last_prekey_is_kept<E, S: PreKeyStore<E>>(
    s: SessionView,
    store: S,
    env: EnvelopeView,
    after: SessionView,
    store_after: S,
    r: Result<Seq<u8>, DecryptError<E>>,
)
    requires
        env.message matches MessageView::Keyed(m) ==> m.prekey_id == MAX_PREKEY_ID,
        s.received::<E, S>(store, env, after, store_after, r),
    ensures
        store_after == store,
{
}

/// Whatever arrives, a session stays one between the same two identities.
pub proof fn law_identities_stay<E, S: PreKeyStore<E>>(
    s: SessionView,
    store: S,
    env: EnvelopeView,
    after: SessionView,
    store_after: S,
    r: Result<Seq<u8>, DecryptError<E>>,
)
    requires
        s.received::<E, S>(store, env, after, store_after, r),
    ensures
        after.version == s.version,
        after.local_identity == s.local_identity,
        after.remote_identity == s.remote_identity,
{
}

/// The message of an envelope names the pending prekey, if there is one, and is a
/// plain one otherwise.
pub proof fn law_prekey_is_named_while_pending(s: SessionView, plain: Seq<u8>)
    ensures
        match s.pending_prekey {
            None => s.envelope(plain).message is Plain,
            Some((id, base)) => s.envelope(plain).message matches MessageView::Keyed(m)
                && m.prekey_id == id && m.base_key == base && m.identity_key
                == s.local_identity.public,
        },
        s.sent().pending_prekey == s.pending_prekey,
{
}

} // verus!
