//! What holds of the states of two peers.
use vstd::prelude::*;

#[allow(unused_imports)]
use crate::derived::law_cipher_round_trip;
#[allow(unused_imports)]
use crate::keys::{law_shared_secret_agrees, KeyPairView, PreKeyBundleView};
#[allow(unused_imports)]
use crate::message::{counter_nonce, next_counter, CipherMessageView, EnvelopeView};
#[allow(unused_imports)]
use crate::session::chain::{dh_ratchet, ChainKeyView, MessageKeysView, RecvChainView};
use crate::session::error::DecryptError;
#[allow(unused_imports)]
use crate::session::state::{
    committed, find_chain, find_keys, move_chain, other_keys, staged, too_old, SessionStateView,
    MAX_COUNTER_GAP, MAX_RECV_CHAINS,
};

verus! {

// Chains

pub(crate) proof fn lemma_advanced_idx(ck: ChainKeyView, n: nat)
    requires
        ck.idx + n <= u32::MAX,
    ensures
        ck.advanced(n).idx == ck.idx + n,
    decreases n,
{
    if n > 0 {
        lemma_advanced_idx(ck, (n - 1) as nat);
    }
}

pub(crate) proof fn lemma_found_key(chains: Seq<RecvChainView>, key: Seq<u8>)
    ensures
        find_chain(chains, key) matches Some(c) ==> c.ratchet_key == key,
    decreases chains.len(),
{
    if chains.len() > 0 {
        lemma_found_key(chains.drop_first(), key);
    }
}

pub(crate) proof fn lemma_find_moved(chains: Seq<RecvChainView>, key: Seq<u8>, ck: ChainKeyView)
    requires
        find_chain(chains, key) is Some,
    ensures
        find_chain(move_chain(chains, key, ck), key) == Some(
            RecvChainView { chain_key: ck, ratchet_key: key },
        ),
    decreases chains.len(),
{
    let moved = move_chain(chains, key, ck);
    if chains[0].ratchet_key != key {
        assert(moved.drop_first() =~= move_chain(chains.drop_first(), key, ck));
        lemma_find_moved(chains.drop_first(), key, ck);
    }
}

/// A state has the chain for a ratchet key once it was looked for.
pub(crate) proof fn lemma_located(r: SessionStateView, key: Seq<u8>, fresh: KeyPairView)
    ensures
        find_chain(r.located(key, fresh).recv_chains, key) == Some(r.chain_for(key)),
        r.chain_for(key).ratchet_key == key,
        r.located(key, fresh).skipped_msgkeys == r.skipped_msgkeys,
{
    lemma_found_key(r.recv_chains, key);
}

proof fn lemma_found_keys(skipped: Seq<MessageKeysView>, counter: u32)
    ensures
        find_keys(skipped, counter) matches Some(mk) ==> skipped.contains(mk) && mk.counter
            == counter,
    decreases skipped.len(),
{
    if skipped.len() > 0 {
        let rest = skipped.drop_first();
        lemma_found_keys(rest, counter);
        if let Some(mk) = find_keys(rest, counter) {
            if skipped[0].counter != counter {
                let i = choose|i: int| 0 <= i < rest.len() && rest[i] == mk;
                assert(skipped[i + 1] == mk);
            }
        }
        assert(skipped.contains(skipped[0]));
    }
}

/// A text comes only from an envelope that was sealed with the keys of its position:
/// a kept one, or one that lies ahead on the chain of its ratchet key.
pub proof fn law_only_sealed_is_received<E>(
    receiver: SessionStateView,
    env: EnvelopeView,
    m: CipherMessageView,
)
    requires
        receiver.decrypt_result::<E>(env, m) is Ok,
    ensures
        exists|mk: MessageKeysView|
            {
                let ck = receiver.chain_for(m.ratchet_key).chain_key;
                &&& #[trigger] env.authentic(mk.mac_key)
                &&& mk.counter == m.counter
                &&& receiver.decrypt_result::<E>(env, m) == Ok::<Seq<u8>, DecryptError<E>>(
                    mk.crypt(m.cipher_text),
                )
                &&& if m.counter < ck.idx {
                    receiver.skipped_msgkeys.contains(mk)
                } else {
                    &&& m.counter - ck.idx <= MAX_COUNTER_GAP
                    &&& mk == ck.advanced((m.counter - ck.idx) as nat).message_keys()
                }
            },
{
    let ck = receiver.chain_for(m.ratchet_key).chain_key;
    if m.counter < ck.idx {
        lemma_found_keys(receiver.skipped_msgkeys, m.counter);
        let mk = find_keys(receiver.skipped_msgkeys, m.counter)->0;
        assert(env.authentic(mk.mac_key));
    } else {
        let gap = (m.counter - ck.idx) as nat;
        lemma_advanced_idx(ck, gap);
        let mk = ck.advanced(gap).message_keys();
        assert(env.authentic(mk.mac_key));
    }
}

/// What `sender` sends next lies `gap` positions ahead on the chain that
/// `receiver` has, or would start, for it.
pub open spec fn ahead(receiver: SessionStateView, sender: SessionStateView, gap: nat) -> bool {
    let chain_key = receiver.chain_for(sender.send_chain.ratchet_key.public).chain_key;
    &&& chain_key.idx + gap <= u32::MAX
    &&& sender.send_chain.chain_key == chain_key.advanced(gap)
}

/// A text that was sent is received, if it is not further ahead than messages may
/// be passed over.
pub proof fn law_sent_is_received<E>(
    receiver: SessionStateView,
    sender: SessionStateView,
    gap: nat,
    ident: Seq<u8>,
    pending: Option<(u16, Seq<u8>)>,
    plain: Seq<u8>,
)
    requires
        ahead(receiver, sender, gap),
        gap <= MAX_COUNTER_GAP,
    ensures
        ({
            let env = sender.envelope(ident, pending, plain);
            receiver.decrypt_result::<E>(env, env.message.cipher()) == Ok::<
                Seq<u8>,
                DecryptError<E>,
            >(plain)
        }),
{
    let env = sender.envelope(ident, pending, plain);
    let m = env.message.cipher();
    let chain_key = receiver.chain_for(m.ratchet_key).chain_key;
    lemma_advanced_idx(chain_key, gap);
    let mk = chain_key.advanced(gap).message_keys();
    law_cipher_round_trip(mk.cipher_key, counter_nonce(mk.counter), plain);
    assert(mk.crypt(m.cipher_text) == plain);
}

/// A text that was sent too far ahead is refused.
pub proof fn law_too_far_ahead_is_refused<E>(
    receiver: SessionStateView,
    sender: SessionStateView,
    gap: nat,
    ident: Seq<u8>,
    pending: Option<(u16, Seq<u8>)>,
    plain: Seq<u8>,
)
    requires
        ahead(receiver, sender, gap),
        gap > MAX_COUNTER_GAP,
    ensures
        ({
            let env = sender.envelope(ident, pending, plain);
            receiver.decrypt_result::<E>(env, env.message.cipher()) == Err::<
                Seq<u8>,
                DecryptError<E>,
            >(DecryptError::TooDistantFuture)
        }),
{
    let m = sender.envelope(ident, pending, plain).message.cipher();
    lemma_advanced_idx(receiver.chain_for(m.ratchet_key).chain_key, gap);
}

/// Once a text was received, the chains of both sides stand at the same position:
/// the next text is the next one that is expected.
pub proof fn law_received_is_in_step(
    receiver: SessionStateView,
    sender: SessionStateView,
    gap: nat,
    ident: Seq<u8>,
    pending: Option<(u16, Seq<u8>)>,
    plain: Seq<u8>,
    fresh: KeyPairView,
)
    requires
        ahead(receiver, sender, gap),
        gap <= MAX_COUNTER_GAP,
    ensures
        ({
            let env = sender.envelope(ident, pending, plain);
            ahead(receiver.decrypt_state(env, env.message.cipher(), fresh), sender.sent(), 0)
        }),
{
    let env = sender.envelope(ident, pending, plain);
    let m = env.message.cipher();
    let rc = receiver.chain_for(m.ratchet_key);
    lemma_advanced_idx(rc.chain_key, gap);
    lemma_located(receiver, m.ratchet_key, fresh);
    let located = receiver.located(m.ratchet_key, fresh);
    let next = rc.chain_key.advanced(gap).next();
    lemma_find_moved(located.recv_chains, m.ratchet_key, next);
    assert(located.received(rc, env, m) == located.passed(rc, gap));
    assert(next.advanced(0) == next);
}

/// A sender after `n` texts.
pub open spec fn sent_texts(sender: SessionStateView, n: nat) -> SessionStateView
    decreases n,
{
    if n == 0 {
        sender
    } else {
        sent_texts(sender, (n - 1) as nat).sent()
    }
}

/// A receiver after the first `n` of some texts arrived in the order in which they
/// were sent; `fresh` are the key pairs that it had at hand for new chains.
pub open spec fn received_texts(
    receiver: SessionStateView,
    sender: SessionStateView,
    ident: Seq<u8>,
    pending: Option<(u16, Seq<u8>)>,
    texts: Seq<Seq<u8>>,
    fresh: Seq<KeyPairView>,
    n: nat,
) -> SessionStateView
    decreases n,
{
    if n == 0 {
        receiver
    } else {
        let k = (n - 1) as nat;
        let env = sent_texts(sender, k).envelope(ident, pending, texts[k as int]);
        received_texts(receiver, sender, ident, pending, texts, fresh, k).decrypt_state(
            env,
            env.message.cipher(),
            fresh[k as int],
        )
    }
}

/// Any number of texts that arrive in the order in which they were sent are all
/// received.
pub proof fn law_stream_is_received<E>(
    receiver: SessionStateView,
    sender: SessionStateView,
    ident: Seq<u8>,
    pending: Option<(u16, Seq<u8>)>,
    texts: Seq<Seq<u8>>,
    fresh: Seq<KeyPairView>,
    n: nat,
)
    requires
        ahead(receiver, sender, 0),
        n < texts.len(),
    ensures
        ({
            let env = sent_texts(sender, n).envelope(ident, pending, texts[n as int]);
            received_texts(receiver, sender, ident, pending, texts, fresh, n).decrypt_result::<E>(
                env,
                env.message.cipher(),
            ) == Ok::<Seq<u8>, DecryptError<E>>(texts[n as int])
        }),
{
    lemma_stream_in_step(receiver, sender, ident, pending, texts, fresh, n);
    law_sent_is_received::<E>(
        received_texts(receiver, sender, ident, pending, texts, fresh, n),
        sent_texts(sender, n),
        0,
        ident,
        pending,
        texts[n as int],
    );
}

pub(crate) proof fn lemma_stream_in_step(
    receiver: SessionStateView,
    sender: SessionStateView,
    ident: Seq<u8>,
    pending: Option<(u16, Seq<u8>)>,
    texts: Seq<Seq<u8>>,
    fresh: Seq<KeyPairView>,
    n: nat,
)
    requires
        ahead(receiver, sender, 0),
    ensures
        ahead(
            received_texts(receiver, sender, ident, pending, texts, fresh, n),
            sent_texts(sender, n),
            0,
        ),
    decreases n,
{
    if n > 0 {
        let k = (n - 1) as nat;
        lemma_stream_in_step(receiver, sender, ident, pending, texts, fresh, k);
        law_received_is_in_step(
            received_texts(receiver, sender, ident, pending, texts, fresh, k),
            sent_texts(sender, k),
            0,
            ident,
            pending,
            texts[k as int],
            fresh[k as int],
        );
    }
}

/// What a peer sends does not change what it expects.
pub proof fn law_sending_leaves_expectations(
    receiver: SessionStateView,
    sender: SessionStateView,
    gap: nat,
)
    requires
        ahead(receiver, sender, gap),
    ensures
        ahead(receiver.sent(), sender, gap),
{
}

proof fn lemma_find_other(
    chains: Seq<RecvChainView>,
    key: Seq<u8>,
    moved: Seq<u8>,
    chain_key: ChainKeyView,
)
    requires
        key != moved,
    ensures
        find_chain(move_chain(chains, moved, chain_key), key) == find_chain(chains, key),
    decreases chains.len(),
{
    if chains.len() > 0 {
        let rest = chains.drop_first();
        assert(move_chain(chains, moved, chain_key).drop_first() =~= move_chain(
            rest,
            moved,
            chain_key,
        ));
        lemma_find_other(rest, key, moved, chain_key);
    }
}

proof fn lemma_find_behind(first: RecvChainView, rest: Seq<RecvChainView>, key: Seq<u8>)
    requires
        first.ratchet_key != key,
    ensures
        find_chain(seq![first] + rest, key) == find_chain(rest, key),
{
    assert((seq![first] + rest).drop_first() =~= rest);
}

proof fn lemma_find_before_last(chains: Seq<RecvChainView>, key: Seq<u8>)
    requires
        chains.len() > 0,
        find_chain(chains.drop_last(), key) is Some,
    ensures
        find_chain(chains, key) == find_chain(chains.drop_last(), key),
    decreases chains.len(),
{
    if chains[0].ratchet_key != key {
        assert(chains.drop_last().drop_first() =~= chains.drop_first().drop_last());
        lemma_find_before_last(chains.drop_first(), key);
    }
}

/// A chain that a receiver has outlives what arrives under other ratchet keys, so
/// that a delayed text is still expected: only the last of as many chains as may be
/// gives way to a new one.
pub proof fn law_older_chain_stays(
    receiver: SessionStateView,
    sender: SessionStateView,
    gap: nat,
    env: EnvelopeView,
    m: CipherMessageView,
    fresh: KeyPairView,
)
    requires
        ahead(receiver, sender, gap),
        find_chain(
            if receiver.recv_chains.len() == MAX_RECV_CHAINS {
                receiver.recv_chains.drop_last()
            } else {
                receiver.recv_chains
            },
            sender.send_chain.ratchet_key.public,
        ) is Some,
        m.ratchet_key != sender.send_chain.ratchet_key.public,
    ensures
        ahead(receiver.decrypt_state(env, m, fresh), sender, gap),
{
    let key = sender.send_chain.ratchet_key.public;
    let chains = receiver.recv_chains;
    let rc = receiver.chain_for(m.ratchet_key);
    let located = receiver.located(m.ratchet_key, fresh);
    lemma_found_key(chains, m.ratchet_key);
    if chains.len() == MAX_RECV_CHAINS {
        lemma_find_before_last(chains, key);
        lemma_find_behind(rc, chains.drop_last(), key);
    } else {
        lemma_find_behind(rc, chains, key);
    }
    assert(find_chain(located.recv_chains, key) == find_chain(chains, key));
    if m.counter >= rc.chain_key.idx {
        let gap = (m.counter - rc.chain_key.idx) as nat;
        lemma_find_other(
            located.recv_chains,
            key,
            rc.ratchet_key,
            rc.chain_key.advanced(gap).next(),
        );
    }
}

/// With each text the position moves on by one; the ratchet key stays, and so does
/// what is said of the chain before.
pub proof fn law_positions_are_consecutive(
    sender: SessionStateView,
    ident: Seq<u8>,
    pending: Option<(u16, Seq<u8>)>,
    one: Seq<u8>,
    two: Seq<u8>,
)
    ensures
        ({
            let m = sender.message(ident, pending, one).cipher();
            let n = sender.sent().message(ident, pending, two).cipher();
            &&& n.counter == next_counter(m.counter)
            &&& n.prev_counter == m.prev_counter
            &&& n.ratchet_key == m.ratchet_key
        }),
{
}

// Handshake and ratchet

/// `sender` made its root key, and started the chain on which it has sent `n`
/// texts, from what `receiver` holds too.
pub open spec fn follows(receiver: SessionStateView, sender: SessionStateView, n: nat) -> bool {
    let (root_key, chain_key) = dh_ratchet(
        receiver.root_key,
        receiver.send_chain.ratchet_key.secret,
        sender.send_chain.ratchet_key.public,
    );
    &&& sender.root_key == root_key
    &&& sender.send_chain.chain_key == chain_key.advanced(n)
}

/// The bundle that a peer publishes of its identity and a prekey.
pub open spec fn bundle_of(ident: KeyPairView, id: u16, prekey: KeyPairView) -> PreKeyBundleView {
    PreKeyBundleView { prekey_id: id, public_key: prekey.public, identity_key: ident.public }
}

/// Both sides of a handshake come to the same keys: what either sends first is
/// what the other expects first.
pub proof fn law_handshake_agrees(
    alice: KeyPairView,
    base: KeyPairView,
    ratchet: KeyPairView,
    bob: KeyPairView,
    id: u16,
    prekey: KeyPairView,
)
    requires
        alice.valid(),
        base.valid(),
        ratchet.valid(),
        bob.valid(),
        prekey.valid(),
    ensures
        ({
            let a = SessionStateView::alice(alice, base, bundle_of(bob, id, prekey), ratchet);
            let b = SessionStateView::bob(bob, prekey, alice.public, base.public);
            ahead(b, a, 0) && ahead(a, b, 0) && follows(b, a, 0)
        }),
{
    law_shared_secret_agrees(alice, prekey);
    law_shared_secret_agrees(base, bob);
    law_shared_secret_agrees(base, prekey);
    law_shared_secret_agrees(ratchet, prekey);
    let a = SessionStateView::alice(alice, base, bundle_of(bob, id, prekey), ratchet);
    let b = SessionStateView::bob(bob, prekey, alice.public, base.public);
    let ck = dh_ratchet(b.root_key, prekey.secret, ratchet.public).1;
    assert(ck.advanced(0) == ck);
    assert(b.send_chain.chain_key.advanced(0) == b.send_chain.chain_key);
    assert(find_chain(a.recv_chains, prekey.public) == Some(a.recv_chains[0]));
}

/// A sender stays in pace with the receiver that it follows.
pub proof fn law_sending_stays_in_pace(
    receiver: SessionStateView,
    sender: SessionStateView,
    n: nat,
)
    requires
        follows(receiver, sender, n),
    ensures
        follows(receiver, sender.sent(), n + 1),
{
}

/// A receiver that has no chain yet for the sender that follows it expects what
/// that sender sends.
pub proof fn law_new_chain_is_expected(
    receiver: SessionStateView,
    sender: SessionStateView,
    n: nat,
)
    requires
        follows(receiver, sender, n),
        find_chain(receiver.recv_chains, sender.send_chain.ratchet_key.public) is None,
        n <= u32::MAX,
    ensures
        ahead(receiver, sender, n),
{
}

/// When a message makes a receiver start new chains for a sender that follows it,
/// the roles turn: the receiver follows the sender, so that what it answers is
/// expected.
pub proof fn law_answer_follows(
    receiver: SessionStateView,
    sender: SessionStateView,
    n: nat,
    env: EnvelopeView,
    m: CipherMessageView,
    fresh: KeyPairView,
)
    requires
        follows(receiver, sender, n),
        sender.valid(),
        fresh.valid(),
        m.ratchet_key == sender.send_chain.ratchet_key.public,
        find_chain(receiver.recv_chains, m.ratchet_key) is None,
    ensures
        follows(sender, receiver.decrypt_state(env, m, fresh), 0),
{
    law_shared_secret_agrees(sender.send_chain.ratchet_key, fresh);
    let answering = receiver.decrypt_state(env, m, fresh);
    assert(answering.send_chain.chain_key.advanced(0) == answering.send_chain.chain_key);
}

// Messages that were passed over, and messages that come again

proof fn lemma_find_keys_append(a: Seq<MessageKeysView>, b: Seq<MessageKeysView>, counter: u32)
    requires
        forall|i: int| 0 <= i < a.len() ==> (#[trigger] a[i]).counter != counter,
    ensures
        find_keys(a + b, counter) == find_keys(b, counter),
    decreases a.len(),
{
    if a.len() == 0 {
        assert(a + b =~= b);
    } else {
        assert((a + b)[0] == a[0]);
        assert((a + b).drop_first() =~= a.drop_first() + b);
        lemma_find_keys_append(a.drop_first(), b, counter);
    }
}

proof fn lemma_find_keys_none(a: Seq<MessageKeysView>, counter: u32)
    requires
        forall|i: int| 0 <= i < a.len() ==> (#[trigger] a[i]).counter != counter,
    ensures
        find_keys(a, counter) is None,
    decreases a.len(),
{
    if a.len() > 0 {
        lemma_find_keys_none(a.drop_first(), counter);
    }
}

/// The keys of a message that was passed over are among the staged ones.
proof fn lemma_find_staged(ck: ChainKeyView, n: nat, i: nat)
    requires
        ck.idx + n <= u32::MAX,
        i < n,
    ensures
        find_keys(staged(ck, n), (ck.idx + i) as u32) == Some(ck.advanced(i).message_keys()),
    decreases n,
{
    let s = staged(ck, n);
    lemma_advanced_idx(ck, (n - 1) as nat);
    if i < n - 1 {
        assert(s.drop_first() =~= staged(ck, (n - 1) as nat));
        lemma_find_staged(ck, (n - 1) as nat, i);
    }
}

/// The kept keys that stay are among those that were there.
pub(crate) proof fn lemma_committed_find(
    skipped: Seq<MessageKeysView>,
    ck: ChainKeyView,
    n: nat,
    i: nat,
)
    requires
        ck.idx + n <= u32::MAX,
        i < n <= MAX_COUNTER_GAP,
        forall|k: int|
            0 <= k < skipped.len() ==> (#[trigger] skipped[k]).counter != ck.idx + i,
    ensures
        find_keys(committed(skipped, staged(ck, n)), (ck.idx + i) as u32) == Some(
            ck.advanced(i).message_keys(),
        ),
{
    let excess = skipped.len() + n - MAX_COUNTER_GAP;
    let kept = if excess > 0 {
        skipped.skip(excess)
    } else {
        skipped
    };
    assert forall|k: int| 0 <= k < kept.len() implies (#[trigger] kept[k]).counter != (ck.idx
        + i) as u32 by {
        if excess > 0 {
            assert(kept[k] == skipped[k + excess]);
        }
    }
    lemma_find_keys_append(kept, staged(ck, n), (ck.idx + i) as u32);
    lemma_find_staged(ck, n, i);
}

/// What a message at position `i` yields once the chain stands behind position
/// `gap`.
pub(crate) proof fn lemma_passed_over(
    receiver: SessionStateView,
    late: SessionStateView,
    sender: SessionStateView,
    gap: nat,
    i: nat,
    ident: Seq<u8>,
    pending: Option<(u16, Seq<u8>)>,
    plain: Seq<u8>,
    fresh: KeyPairView,
)
    requires
        ahead(receiver, late, i),
        ahead(receiver, sender, gap),
        late.send_chain.ratchet_key == sender.send_chain.ratchet_key,
        i < gap <= MAX_COUNTER_GAP,
        sender.send_chain.chain_key.idx < u32::MAX,
    ensures
        ({
            let env = sender.envelope(ident, pending, plain);
            let after = receiver.decrypt_state(env, env.message.cipher(), fresh);
            let key = sender.send_chain.ratchet_key.public;
            let ck = receiver.chain_for(key).chain_key;
            &&& ck.idx + gap < u32::MAX
            &&& late.send_chain.chain_key.idx == ck.idx + i
            &&& after.skipped_msgkeys == committed(receiver.skipped_msgkeys, staged(ck, gap))
            &&& after.chain_for(key).chain_key.idx == ck.idx + gap + 1
        }),
{
    let env = sender.envelope(ident, pending, plain);
    let m = env.message.cipher();
    let rc = receiver.chain_for(m.ratchet_key);
    lemma_advanced_idx(rc.chain_key, gap);
    lemma_advanced_idx(rc.chain_key, i);
    lemma_located(receiver, m.ratchet_key, fresh);
    let located = receiver.located(m.ratchet_key, fresh);
    let next = rc.chain_key.advanced(gap).next();
    lemma_find_moved(located.recv_chains, m.ratchet_key, next);
    assert(located.received(rc, env, m) == located.passed(rc, gap));
}

/// A text whose key was kept is received, unless the first of the kept keys is for
/// a later position. Of the kept keys, those for its position go and the others
/// stay.
pub proof fn law_kept_key_opens<E>(
    receiver: SessionStateView,
    late: SessionStateView,
    ident: Seq<u8>,
    pending: Option<(u16, Seq<u8>)>,
    plain: Seq<u8>,
    fresh: KeyPairView,
)
    requires
        late.send_chain.chain_key.idx < receiver.chain_for(
            late.send_chain.ratchet_key.public,
        ).chain_key.idx,
        find_keys(receiver.skipped_msgkeys, late.send_chain.chain_key.idx) == Some(
            late.send_chain.chain_key.message_keys(),
        ),
    ensures
        ({
            let counter = late.send_chain.chain_key.idx;
            let env = late.envelope(ident, pending, plain);
            let m = env.message.cipher();
            let after = receiver.decrypt_state(env, m, fresh);
            if too_old(receiver.skipped_msgkeys, counter) {
                &&& receiver.decrypt_result::<E>(env, m) == Err::<Seq<u8>, DecryptError<E>>(
                    DecryptError::OutdatedMessage,
                )
                &&& after.skipped_msgkeys == receiver.skipped_msgkeys
            } else {
                &&& receiver.decrypt_result::<E>(env, m) == Ok::<Seq<u8>, DecryptError<E>>(plain)
                &&& after.skipped_msgkeys == other_keys(receiver.skipped_msgkeys, counter)
            }
        }),
{
    let mk = late.send_chain.chain_key.message_keys();
    law_cipher_round_trip(mk.cipher_key, counter_nonce(mk.counter), plain);
    let m = late.envelope(ident, pending, plain).message.cipher();
    assert(mk.crypt(m.cipher_text) == plain);
}

/// A text that was passed over is received when it arrives late, unless the first
/// of the kept keys is for a later position. No kept key of another chain may be
/// for its position.
pub proof fn law_passed_over_is_received<E>(
    receiver: SessionStateView,
    late: SessionStateView,
    sender: SessionStateView,
    gap: nat,
    i: nat,
    ident: Seq<u8>,
    pending: Option<(u16, Seq<u8>)>,
    plain: Seq<u8>,
    late_plain: Seq<u8>,
    fresh: KeyPairView,
)
    requires
        ahead(receiver, late, i),
        ahead(receiver, sender, gap),
        late.send_chain.ratchet_key == sender.send_chain.ratchet_key,
        i < gap <= MAX_COUNTER_GAP,
        sender.send_chain.chain_key.idx < u32::MAX,
        forall|k: int|
            0 <= k < receiver.skipped_msgkeys.len() ==> (
            #[trigger] receiver.skipped_msgkeys[k]).counter != late.send_chain.chain_key.idx,
    ensures
        ({
            let env = sender.envelope(ident, pending, plain);
            let after = receiver.decrypt_state(env, env.message.cipher(), fresh);
            let late_env = late.envelope(ident, pending, late_plain);
            after.decrypt_result::<E>(late_env, late_env.message.cipher()) == if too_old(
                after.skipped_msgkeys,
                late.send_chain.chain_key.idx,
            ) {
                Err::<Seq<u8>, DecryptError<E>>(DecryptError::OutdatedMessage)
            } else {
                Ok(late_plain)
            }
        }),
{
    let env = sender.envelope(ident, pending, plain);
    let after = receiver.decrypt_state(env, env.message.cipher(), fresh);
    let late_env = late.envelope(ident, pending, late_plain);
    let m = late_env.message.cipher();
    let ck = receiver.chain_for(m.ratchet_key).chain_key;
    lemma_passed_over(receiver, late, sender, gap, i, ident, pending, plain, fresh);
    lemma_committed_find(receiver.skipped_msgkeys, ck, gap, i);
    let mk = ck.advanced(i).message_keys();
    law_cipher_round_trip(mk.cipher_key, counter_nonce(mk.counter), late_plain);
    assert(mk.crypt(m.cipher_text) == late_plain);
}

/// Where no keys were kept before, the first kept key is that of the message directly
/// before.
pub(crate) proof fn lemma_first_staged(
    skipped: Seq<MessageKeysView>,
    ck: ChainKeyView,
    n: nat,
)
    requires
        skipped.len() == 0,
        0 < n <= MAX_COUNTER_GAP,
        ck.idx + n <= u32::MAX,
    ensures
        committed(skipped, staged(ck, n)).len() == n,
        committed(skipped, staged(ck, n))[0].counter == ck.idx + n - 1,
{
    lemma_advanced_idx(ck, (n - 1) as nat);
    assert(committed(skipped, staged(ck, n)) =~= staged(ck, n));
}

/// Where no keys were kept before, the text directly before the one that was
/// received is received late, and texts before that one are outdated.
pub proof fn law_which_passed_over_are_received<E>(
    receiver: SessionStateView,
    late: SessionStateView,
    sender: SessionStateView,
    gap: nat,
    i: nat,
    ident: Seq<u8>,
    pending: Option<(u16, Seq<u8>)>,
    plain: Seq<u8>,
    late_plain: Seq<u8>,
    fresh: KeyPairView,
)
    requires
        ahead(receiver, late, i),
        ahead(receiver, sender, gap),
        late.send_chain.ratchet_key == sender.send_chain.ratchet_key,
        i < gap <= MAX_COUNTER_GAP,
        sender.send_chain.chain_key.idx < u32::MAX,
        receiver.skipped_msgkeys.len() == 0,
    ensures
        ({
            let env = sender.envelope(ident, pending, plain);
            let after = receiver.decrypt_state(env, env.message.cipher(), fresh);
            let late_env = late.envelope(ident, pending, late_plain);
            after.decrypt_result::<E>(late_env, late_env.message.cipher()) == if i + 1 < gap {
                Err::<Seq<u8>, DecryptError<E>>(DecryptError::OutdatedMessage)
            } else {
                Ok(late_plain)
            }
        }),
{
    let ck = receiver.chain_for(sender.send_chain.ratchet_key.public).chain_key;
    lemma_passed_over(receiver, late, sender, gap, i, ident, pending, plain, fresh);
    law_passed_over_is_received::<E>(
        receiver,
        late,
        sender,
        gap,
        i,
        ident,
        pending,
        plain,
        late_plain,
        fresh,
    );
    lemma_first_staged(receiver.skipped_msgkeys, ck, gap);
}

pub(crate) proof fn lemma_other_keys_absent(skipped: Seq<MessageKeysView>, counter: u32)
    ensures
        forall|i: int|
            0 <= i < other_keys(skipped, counter).len() ==> (#[trigger] other_keys(
                skipped,
                counter,
            )[i]).counter != counter,
        other_keys(skipped, counter).len() <= skipped.len(),
    decreases skipped.len(),
{
    reveal(Seq::filter);
    if skipped.len() > 0 {
        lemma_other_keys_absent(skipped.drop_last(), counter);
    }
}

pub(crate) proof fn lemma_no_keys(skipped: Seq<MessageKeysView>, counter: u32)
    requires
        find_keys(skipped, counter) is None,
    ensures
        other_keys(skipped, counter) == skipped,
        forall|i: int| 0 <= i < skipped.len() ==> (#[trigger] skipped[i]).counter != counter,
    decreases skipped.len(),
{
    if skipped.len() > 0 {
        let rest = skipped.drop_first();
        lemma_no_keys(rest, counter);
        assert forall|i: int| 0 <= i < skipped.len() implies (#[trigger] skipped[i]).counter
            != counter by {
            if i > 0 {
                assert(rest[i - 1] == skipped[i]);
            }
        }
    }
    lemma_all_other_keys(skipped, counter);
}

proof fn lemma_all_other_keys(skipped: Seq<MessageKeysView>, counter: u32)
    requires
        forall|i: int| 0 <= i < skipped.len() ==> (#[trigger] skipped[i]).counter != counter,
    ensures
        other_keys(skipped, counter) == skipped,
    decreases skipped.len(),
{
    reveal(Seq::filter);
    if skipped.len() > 0 {
        lemma_all_other_keys(skipped.drop_last(), counter);
        assert(skipped.last().counter != counter);
        assert(skipped.drop_last().push(skipped.last()) =~= skipped);
    }
}

/// Whether none of the kept keys opens an envelope at a position that lies behind:
/// the first of them is for a later position, or the first that is for this one does
/// not authenticate the envelope.
pub open spec fn kept_keys_refuse(
    kept: Seq<MessageKeysView>,
    env: EnvelopeView,
    counter: u32,
) -> bool {
    too_old(kept, counter) || (find_keys(kept, counter) matches Some(mk) ==> !env.authentic(
        mk.mac_key,
    ))
}

/// Why a message at a position that lies behind is refused.
pub open spec fn behind_error<E>(kept: Seq<MessageKeysView>, counter: u32) -> DecryptError<E> {
    if too_old(kept, counter) {
        DecryptError::OutdatedMessage
    } else if find_keys(kept, counter) is Some {
        DecryptError::InvalidMessage
    } else {
        DecryptError::DuplicateMessage
    }
}

/// A message that lies behind its chain is refused, unless a kept key opens it. Where
/// no key was kept for its position, or it is outdated, nothing changes.
pub proof fn law_behind_is_refused<E>(
    receiver: SessionStateView,
    env: EnvelopeView,
    m: CipherMessageView,
    fresh: KeyPairView,
)
    requires
        m.counter < receiver.chain_for(m.ratchet_key).chain_key.idx,
        kept_keys_refuse(receiver.skipped_msgkeys, env, m.counter),
    ensures
        receiver.decrypt_result::<E>(env, m) == Err::<Seq<u8>, DecryptError<E>>(
            behind_error(receiver.skipped_msgkeys, m.counter),
        ),
        too_old(receiver.skipped_msgkeys, m.counter) || find_keys(
            receiver.skipped_msgkeys,
            m.counter,
        ) is None ==> receiver.decrypt_state(env, m, fresh) == receiver,
{
    if find_keys(receiver.skipped_msgkeys, m.counter) is None {
        lemma_no_keys(receiver.skipped_msgkeys, m.counter);
    }
}

/// A message that yielded a text lies behind its chain from then on, so that it is
/// refused when it comes again, unless a kept key opens it. There is such a key at
/// most where one of another chain was kept for the same position. Behind the last
/// position a chain counts from zero again, from where the message is too far ahead.
pub proof fn law_replay_is_refused<E>(
    receiver: SessionStateView,
    env: EnvelopeView,
    m: CipherMessageView,
    fresh: KeyPairView,
)
    requires
        receiver.decrypt_result::<E>(env, m) is Ok,
    ensures
        ({
            let after = receiver.decrypt_state(env, m, fresh);
            let kept = after.skipped_msgkeys;
            if m.counter == u32::MAX {
                after.decrypt_result::<E>(env, m) == Err::<Seq<u8>, DecryptError<E>>(
                    DecryptError::TooDistantFuture,
                )
            } else {
                &&& find_chain(after.recv_chains, m.ratchet_key) is Some
                &&& m.counter < after.chain_for(m.ratchet_key).chain_key.idx
                &&& kept_keys_refuse(kept, env, m.counter) ==> after.decrypt_result::<E>(env, m)
                    == Err::<Seq<u8>, DecryptError<E>>(behind_error(kept, m.counter))
                &&& m.counter < receiver.chain_for(m.ratchet_key).chain_key.idx || find_keys(
                    receiver.skipped_msgkeys,
                    m.counter,
                ) is None ==> find_keys(kept, m.counter) is None
            }
        }),
{
    let rc = receiver.chain_for(m.ratchet_key);
    let located = receiver.located(m.ratchet_key, fresh);
    let after = receiver.decrypt_state(env, m, fresh);
    lemma_located(receiver, m.ratchet_key, fresh);
    if m.counter < rc.chain_key.idx {
        lemma_other_keys_absent(receiver.skipped_msgkeys, m.counter);
        lemma_find_keys_none(after.skipped_msgkeys, m.counter);
        assert(after.chain_for(m.ratchet_key) == rc);
    } else {
        let gap = (m.counter - rc.chain_key.idx) as nat;
        lemma_advanced_idx(rc.chain_key, gap);
        let next = rc.chain_key.advanced(gap).next();
        lemma_find_moved(located.recv_chains, m.ratchet_key, next);
        assert(after == located.passed(rc, gap));
        if find_keys(receiver.skipped_msgkeys, m.counter) is None {
            lemma_no_keys(receiver.skipped_msgkeys, m.counter);
            assert forall|k: int| 0 <= k < after.skipped_msgkeys.len() implies (
            #[trigger] after.skipped_msgkeys[k]).counter != m.counter by {
                if gap > 0 {
                    let excess = receiver.skipped_msgkeys.len() + gap - MAX_COUNTER_GAP;
                    let dropped = if excess > 0 {
                        excess
                    } else {
                        0
                    };
                    let kept = receiver.skipped_msgkeys.len() - dropped;
                    if k < kept {
                        assert(after.skipped_msgkeys[k] == receiver.skipped_msgkeys[k + dropped]);
                    } else {
                        let j = k - kept;
                        assert(after.skipped_msgkeys[k] == staged(rc.chain_key, gap)[j]);
                        lemma_advanced_idx(rc.chain_key, (gap - 1 - j) as nat);
                    }
                }
            }
            lemma_find_keys_none(after.skipped_msgkeys, m.counter);
        }
    }
}

/// The positions of receive chains only move forward. Of the chains that a state has
/// before and after a message, only the one under the ratchet key of the message
/// moves, and only where the message yields a text and does not lie behind.
pub proof fn law_chain_moves_forward<E>(
    receiver: SessionStateView,
    env: EnvelopeView,
    m: CipherMessageView,
    fresh: KeyPairView,
    key: Seq<u8>,
)
    requires
        m.counter < u32::MAX,
        find_chain(receiver.recv_chains, key) is Some,
        find_chain(receiver.decrypt_state(env, m, fresh).recv_chains, key) is Some,
    ensures
        ({
            let before = find_chain(receiver.recv_chains, key)->0;
            let after = find_chain(receiver.decrypt_state(env, m, fresh).recv_chains, key)->0;
            let moves = key == m.ratchet_key && receiver.decrypt_result::<E>(env, m) is Ok
                && m.counter >= before.chain_key.idx;
            &&& after.chain_key.idx >= before.chain_key.idx
            &&& after.chain_key.idx > before.chain_key.idx <==> moves
            &&& !moves ==> after == before
        }),
{
    let chains = receiver.recv_chains;
    let rc = receiver.chain_for(m.ratchet_key);
    let located = receiver.located(m.ratchet_key, fresh);
    lemma_located(receiver, m.ratchet_key, fresh);
    let gap = (m.counter - rc.chain_key.idx) as nat;
    let next = rc.chain_key.advanced(gap).next();
    if m.counter >= rc.chain_key.idx {
        lemma_advanced_idx(rc.chain_key, gap);
    }
    if key == m.ratchet_key {
        lemma_find_moved(chains, key, next);
    } else {
        lemma_find_other(located.recv_chains, key, rc.ratchet_key, next);
        if find_chain(chains, m.ratchet_key) is None {
            if chains.len() == MAX_RECV_CHAINS {
                lemma_find_behind(rc, chains.drop_last(), key);
                assert(find_chain(chains.drop_last(), key) is Some);
                lemma_find_before_last(chains, key);
            } else {
                lemma_find_behind(rc, chains, key);
            }
        }
        assert(find_chain(located.recv_chains, key) == find_chain(chains, key));
    }
}

/// A state after the first `n` of some messages arrived, each with the key pair that
/// was at hand for new chains.
pub open spec fn after_messages(
    receiver: SessionStateView,
    arrived: Seq<(EnvelopeView, CipherMessageView, KeyPairView)>,
    n: nat,
) -> SessionStateView
    decreases n,
{
    if n == 0 {
        receiver
    } else {
        let (env, m, fresh) = arrived[n - 1];
        after_messages(receiver, arrived, (n - 1) as nat).decrypt_state(env, m, fresh)
    }
}

proof fn lemma_stays_behind(
    receiver: SessionStateView,
    arrived: Seq<(EnvelopeView, CipherMessageView, KeyPairView)>,
    n: nat,
    key: Seq<u8>,
    counter: u32,
)
    requires
        n <= arrived.len(),
        forall|k: int| 0 <= k < n ==> (#[trigger] arrived[k]).1.counter < u32::MAX,
        forall|k: nat|
            k <= n ==> find_chain(
                (#[trigger] after_messages(receiver, arrived, k)).recv_chains,
                key,
            ) is Some,
        counter < receiver.chain_for(key).chain_key.idx,
    ensures
        counter < after_messages(receiver, arrived, n).chain_for(key).chain_key.idx,
    decreases n,
{
    if n > 0 {
        let k = (n - 1) as nat;
        lemma_stays_behind(receiver, arrived, k, key, counter);
        let (env, m, fresh) = arrived[k as int];
        assert(find_chain(after_messages(receiver, arrived, k).recv_chains, key) is Some);
        assert(find_chain(after_messages(receiver, arrived, n).recv_chains, key) is Some);
        law_chain_moves_forward::<()>(
            after_messages(receiver, arrived, k),
            env,
            m,
            fresh,
            key,
        );
    }
}

/// However many messages arrive in between, a message that yielded a text is refused
/// when it comes again, unless a kept key opens it, for as long as the chain of its
/// ratchet key is there.
pub proof fn law_replay_stays_refused<E>(
    receiver: SessionStateView,
    env: EnvelopeView,
    m: CipherMessageView,
    fresh: KeyPairView,
    arrived: Seq<(EnvelopeView, CipherMessageView, KeyPairView)>,
)
    requires
        receiver.decrypt_result::<E>(env, m) is Ok,
        m.counter < u32::MAX,
        forall|k: int| 0 <= k < arrived.len() ==> (#[trigger] arrived[k]).1.counter < u32::MAX,
        forall|k: nat|
            k <= arrived.len() ==> find_chain(
                (#[trigger] after_messages(
                    receiver.decrypt_state(env, m, fresh),
                    arrived,
                    k,
                )).recv_chains,
                m.ratchet_key,
            ) is Some,
    ensures
        ({
            let later = after_messages(
                receiver.decrypt_state(env, m, fresh),
                arrived,
                arrived.len(),
            );
            &&& m.counter < later.chain_for(m.ratchet_key).chain_key.idx
            &&& kept_keys_refuse(later.skipped_msgkeys, env, m.counter) ==> later.decrypt_result::<
                E,
            >(env, m) == Err::<Seq<u8>, DecryptError<E>>(
                behind_error(later.skipped_msgkeys, m.counter),
            )
        }),
{
    let after = receiver.decrypt_state(env, m, fresh);
    law_replay_is_refused::<E>(receiver, env, m, fresh);
    lemma_stays_behind(after, arrived, arrived.len(), m.ratchet_key, m.counter);
}

} // verus!
