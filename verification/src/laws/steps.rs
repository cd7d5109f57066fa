//! What one text does to one state, field by field.
use vstd::prelude::*;

use crate::keys::KeyPairView;
#[allow(unused_imports)]
use crate::laws::secrets::law_cipher_text;
#[allow(unused_imports)]
use crate::laws::state::{
    ahead, law_kept_key_opens, law_sent_is_received, lemma_advanced_idx,
    lemma_committed_find, lemma_find_moved, lemma_found_key, lemma_located, lemma_passed_over,
    received_texts, sent_texts, lemma_stream_in_step,
};
#[allow(unused_imports)]
use crate::message::{
    counter_nonce, CipherMessageView, EnvelopeView, Message, MessageView, PreKeyMessageView,
};
#[allow(unused_imports)]
use crate::primitives::{chacha20_stream, hkdf_sha256, hmac_sha256, x25519};
#[allow(unused_imports)]
use crate::session::chain::{dh_ratchet, ChainKeyView, MessageKeysView, RecvChainView};
use crate::session::error::DecryptError;
#[allow(unused_imports)]
use crate::session::state::{
    committed, find_chain, find_keys, move_chain, other_keys, skipped_left, staged, too_old,
    SessionStateView, MAX_COUNTER_GAP, MAX_RECV_CHAINS,
};
#[allow(unused_imports)]
use crate::session::MAX_SESSION_STATES;
#[allow(unused_imports)]
use crate::wire::Wire;
#[allow(unused_imports)]
use vstd::utf8::encode_utf8;

verus! {

// Parts of a state

/// The limits.
pub proof fn law_limits(s: SessionStateView)
    ensures
        MAX_RECV_CHAINS == 5,
        MAX_COUNTER_GAP == 1000,
        MAX_SESSION_STATES == 100,
        s.within_limits() <==> {
            &&& s.recv_chains.len() <= 5
            &&& s.skipped_msgkeys.len() <= 1000
            &&& forall|i: int, j: int|
                #![trigger s.recv_chains[i], s.recv_chains[j]]
                0 <= i < j < s.recv_chains.len() ==> s.recv_chains[i].ratchet_key
                    != s.recv_chains[j].ratchet_key
        },
        s.valid() <==> s.send_chain.ratchet_key.valid(),
{
}

/// The chain that is found under a key is the first one under it; where none is found,
/// there is none.
pub proof fn law_chain_is_found(chains: Seq<RecvChainView>, key: Seq<u8>)
    ensures
        match find_chain(chains, key) {
            Some(c) => exists|i: int|
                0 <= i < chains.len() && #[trigger] chains[i] == c && c.ratchet_key == key
                    && forall|j: int|
                    0 <= j < i ==> (#[trigger] chains[j]).ratchet_key != key,
            None => forall|i: int|
                0 <= i < chains.len() ==> (#[trigger] chains[i]).ratchet_key != key,
        },
    decreases chains.len(),
{
    if chains.len() > 0 {
        if chains[0].ratchet_key == key {
            assert(chains[0] == chains[0]);
        } else {
            let rest = chains.drop_first();
            law_chain_is_found(rest, key);
            assert forall|j: int| 1 <= j < chains.len() implies chains[j] == #[trigger] rest[j
                - 1] by {}
            match find_chain(rest, key) {
                Some(c) => {
                    let i = choose|i: int|
                        0 <= i < rest.len() && #[trigger] rest[i] == c && c.ratchet_key == key
                            && forall|j: int|
                            0 <= j < i ==> (#[trigger] rest[j]).ratchet_key != key;
                    assert(chains[i + 1] == c);
                    assert forall|j: int| 0 <= j < i + 1 implies (#[trigger] chains[j]).ratchet_key
                        != key by {
                        if j > 0 {
                            assert(rest[j - 1] == chains[j]);
                        }
                    }
                },
                None => {
                    assert forall|j: int| 0 <= j < chains.len() implies (
                    #[trigger] chains[j]).ratchet_key != key by {
                        if j > 0 {
                            assert(rest[j - 1] == chains[j]);
                        }
                    }
                },
            }
        }
    }
}

/// The kept key that is found for a position is the first one for it; where none is
/// found, there is none.
pub proof fn law_kept_key_is_found(kept: Seq<MessageKeysView>, counter: u32)
    ensures
        match find_keys(kept, counter) {
            Some(k) => exists|i: int|
                0 <= i < kept.len() && #[trigger] kept[i] == k && k.counter == counter
                    && forall|j: int|
                    0 <= j < i ==> (#[trigger] kept[j]).counter != counter,
            None => forall|i: int|
                0 <= i < kept.len() ==> (#[trigger] kept[i]).counter != counter,
        },
    decreases kept.len(),
{
    if kept.len() > 0 {
        if kept[0].counter == counter {
            assert(kept[0] == kept[0]);
        } else {
            let rest = kept.drop_first();
            law_kept_key_is_found(rest, counter);
            match find_keys(rest, counter) {
                Some(k) => {
                    let i = choose|i: int|
                        0 <= i < rest.len() && #[trigger] rest[i] == k && k.counter == counter
                            && forall|j: int|
                            0 <= j < i ==> (#[trigger] rest[j]).counter != counter;
                    assert(kept[i + 1] == k);
                    assert forall|j: int| 0 <= j < i + 1 implies (#[trigger] kept[j]).counter
                        != counter by {
                        if j > 0 {
                            assert(rest[j - 1] == kept[j]);
                        }
                    }
                },
                None => {
                    assert forall|j: int| 0 <= j < kept.len() implies (#[trigger] kept[j]).counter
                        != counter by {
                        if j > 0 {
                            assert(rest[j - 1] == kept[j]);
                        }
                    }
                },
            }
        }
    }
}

/// Taking out the keys for a position takes out exactly those, and leaves the others in
/// their order.
pub proof fn law_other_keys_stay(kept: Seq<MessageKeysView>, k: MessageKeysView, counter: u32)
    ensures
        other_keys(Seq::empty(), counter) == Seq::<MessageKeysView>::empty(),
        other_keys(kept.push(k), counter) == (if k.counter == counter {
            other_keys(kept, counter)
        } else {
            other_keys(kept, counter).push(k)
        }),
        too_old(kept, counter) <==> kept.len() > 0 && kept[0].counter > counter,
{
    reveal(Seq::filter);
    assert(kept.push(k).drop_last() =~= kept);
}

/// The keys of messages that are passed over are those of the positions from the chain
/// key on, the last one first. They are kept behind those that were kept before, of
/// which the first ones give way where there are more than a thousand together.
pub proof fn law_keys_are_kept(kept: Seq<MessageKeysView>, ck: ChainKeyView, n: nat)
    requires
        n <= 1000,
    ensures
        ({
            let after = committed(kept, staged(ck, n));
            let lost = if kept.len() + n > 1000 {
                kept.len() + n - 1000
            } else {
                0
            };
            &&& after.len() == kept.len() + n - lost
            &&& forall|i: int|
                lost <= i < kept.len() ==> #[trigger] kept[i] == after[i - lost]
            &&& forall|i: int|
                0 <= i < n ==> #[trigger] ck.advanced(i as nat).message_keys() == after[after.len()
                    - 1 - i]
        }),
{
    assert(staged(ck, n).len() == n);
}

/// The same of any keys that come to be kept.
pub proof fn law_keys_join_kept_ones(kept: Seq<MessageKeysView>, more: Seq<MessageKeysView>)
    requires
        more.len() <= 1000,
    ensures
        ({
            let after = committed(kept, more);
            let lost = if kept.len() + more.len() > 1000 {
                kept.len() + more.len() - 1000
            } else {
                0
            };
            &&& after.len() == kept.len() + more.len() - lost
            &&& forall|i: int|
                lost <= i < kept.len() ==> #[trigger] kept[i] == after[i - lost]
            &&& forall|i: int|
                0 <= i < more.len() ==> #[trigger] more[i] == after[kept.len() - lost + i]
        }),
{
}

/// Looking for a position that lies behind takes out the keys for it, unless the first
/// of the kept keys is for a later one.
pub proof fn law_looked_for_keys_go(kept: Seq<MessageKeysView>, counter: u32)
    ensures
        skipped_left(kept, counter) == (if kept.len() > 0 && kept[0].counter > counter {
            kept
        } else {
            other_keys(kept, counter)
        }),
{
}

/// The chains under a ratchet key move to a chain key, and the others stay.
pub proof fn law_chains_under_key_move(
    chains: Seq<RecvChainView>,
    key: Seq<u8>,
    chain_key: ChainKeyView,
)
    ensures
        move_chain(chains, key, chain_key).len() == chains.len(),
        forall|i: int|
            #![trigger move_chain(chains, key, chain_key)[i]]
            0 <= i < chains.len() ==> {
                let c = move_chain(chains, key, chain_key)[i];
                &&& c.ratchet_key == chains[i].ratchet_key
                &&& chains[i].ratchet_key == key ==> c.chain_key == chain_key
                &&& chains[i].ratchet_key != key ==> c.chain_key == chains[i].chain_key
            },
{
}

/// New chains come in place whatever ratchet key they are for: the one to receive in
/// front of the others, of which the last of five gives way, and the one to send instead
/// of the one before, whose position is noted.
pub proof fn law_chains_start(
    s: SessionStateView,
    root: Seq<u8>,
    recv: ChainKeyView,
    send: ChainKeyView,
    theirs: Seq<u8>,
    fresh: KeyPairView,
)
    ensures
        ({
            let after = s.with_chains(root, recv, send, theirs, fresh);
            &&& after.root_key == root
            &&& after.send_chain.chain_key == send
            &&& after.send_chain.ratchet_key == fresh
            &&& after.prev_counter == s.send_chain.chain_key.idx
            &&& after.skipped_msgkeys == s.skipped_msgkeys
            &&& after.recv_chains.len() == (if s.recv_chains.len() == 5 {
                5
            } else {
                s.recv_chains.len() + 1
            })
            &&& after.recv_chains[0].chain_key == recv
            &&& after.recv_chains[0].ratchet_key == theirs
            &&& forall|j: int|
                0 <= j < after.recv_chains.len() - 1 ==> #[trigger] s.recv_chains[j]
                    == after.recv_chains[j + 1]
        }),
{
}

/// A state turns to a ratchet key by two steps of its root key: the first with its own
/// ratchet key, for what it receives, and the second with a fresh one, for what it sends.
pub proof fn law_state_turns(s: SessionStateView, theirs: Seq<u8>, fresh: KeyPairView)
    ensures
        ({
            let (root, recv) = dh_ratchet(s.root_key, s.send_chain.ratchet_key.secret, theirs);
            let (next, send) = dh_ratchet(root, fresh.secret, theirs);
            s.ratcheted(theirs, fresh) == s.with_chains(next, recv, send, theirs, fresh)
        }),
        find_chain(s.recv_chains, theirs) is Some ==> s.located(theirs, fresh) == s,
        find_chain(s.recv_chains, theirs) is None ==> s.located(theirs, fresh) == s.ratcheted(
            theirs,
            fresh,
        ),
        find_chain(s.recv_chains, theirs) is None && s.draws(theirs, fresh) ==> fresh.valid(),
{
}

/// A message for a given chain changes no more than the kept keys and the chains under
/// the ratchet key of that chain.
pub proof fn law_message_for_chain(
    s: SessionStateView,
    rc: RecvChainView,
    env: EnvelopeView,
    m: CipherMessageView,
)
    ensures
        ({
            let after = s.received(rc, env, m);
            let ck = rc.chain_key;
            let gap = (m.counter - ck.idx) as nat;
            let taken = m.counter >= ck.idx && m.counter - ck.idx <= 1000 && env.mac
                == hmac_sha256(
                ck.advanced(gap).message_keys().mac_key,
                Message::bytes(env.message),
            );
            &&& after.root_key == s.root_key
            &&& after.send_chain == s.send_chain
            &&& after.prev_counter == s.prev_counter
            &&& after.recv_chains == (if taken {
                move_chain(s.recv_chains, rc.ratchet_key, ck.advanced(gap).next())
            } else {
                s.recv_chains
            })
            &&& after.skipped_msgkeys == (if m.counter < ck.idx {
                skipped_left(s.skipped_msgkeys, m.counter)
            } else if taken && gap > 0 {
                committed(s.skipped_msgkeys, staged(ck, gap))
            } else {
                s.skipped_msgkeys
            })
        }),
{
}

// Sending

/// The message of a text carries the ratchet key, the position on the send chain and
/// what is said of the chain before, and the cipher text under the keys of the
/// position. It names a prekey, with the sender's identity, where one is pending.
pub proof fn law_message_of_text(
    s: SessionStateView,
    ident: Seq<u8>,
    pending: Option<(u16, Seq<u8>)>,
    plain: Seq<u8>,
)
    ensures
        ({
            let env = s.envelope(ident, pending, plain);
            let m = env.message.cipher();
            let mk = s.send_chain.chain_key.message_keys();
            &&& m.ratchet_key == s.send_chain.ratchet_key.public
            &&& m.counter == s.send_chain.chain_key.idx
            &&& m.prev_counter == s.prev_counter
            &&& m.cipher_text.len() == plain.len()
            &&& forall|i: int|
                #![trigger m.cipher_text[i]]
                0 <= i < plain.len() ==> m.cipher_text[i] == plain[i] ^ chacha20_stream(
                    mk.cipher_key,
                    counter_nonce(s.send_chain.chain_key.idx),
                    i,
                )
            &&& env.message == s.message(ident, pending, plain)
            &&& env.mac == hmac_sha256(mk.mac_key, Message::bytes(env.message))
            &&& match pending {
                None => env.message == MessageView::Plain(m),
                Some(p) => env.message == MessageView::Keyed(
                    PreKeyMessageView {
                        prekey_id: p.0,
                        base_key: p.1,
                        identity_key: ident,
                        message: m,
                    },
                ),
            }
        }),
{
}

/// A text that is sent moves the send chain on by one step, and changes nothing else.
pub proof fn law_sending_moves_one_step(s: SessionStateView)
    ensures
        s.sent().send_chain.chain_key == s.send_chain.chain_key.next(),
        s.sent().send_chain.ratchet_key == s.send_chain.ratchet_key,
        s.sent().recv_chains == s.recv_chains,
        s.sent().root_key == s.root_key,
        s.sent().prev_counter == s.prev_counter,
        s.sent().skipped_msgkeys == s.skipped_msgkeys,
{
}

// Receiving

/// The chain that keys a message: the first one under its ratchet key or, where there
/// is none, one that starts from the root key and the secret shared with that key.
pub proof fn law_chain_of_message(s: SessionStateView, key: Seq<u8>)
    ensures
        find_chain(s.recv_chains, key) matches Some(c) ==> s.chain_for(key) == c,
        find_chain(s.recv_chains, key) is None ==> s.chain_for(key) == (RecvChainView {
            chain_key: ChainKeyView {
                key: hkdf_sha256(
                    s.root_key,
                    x25519(s.send_chain.ratchet_key.secret, key),
                    encode_utf8("dh_ratchet"@),
                    64,
                ).subrange(32, 64),
                idx: 0,
            },
            ratchet_key: key,
        }),
{
}

/// The keys that open a message: the first kept ones for its position where it lies
/// behind its chain, and those of its position on the chain otherwise.
pub open spec fn opening_keys(s: SessionStateView, m: CipherMessageView) -> Option<
    MessageKeysView,
> {
    let ck = s.chain_for(m.ratchet_key).chain_key;
    if m.counter < ck.idx {
        if s.skipped_msgkeys.len() > 0 && s.skipped_msgkeys[0].counter > m.counter {
            None
        } else {
            find_keys(s.skipped_msgkeys, m.counter)
        }
    } else if m.counter - ck.idx > 1000 {
        None
    } else {
        Some(ck.advanced((m.counter - ck.idx) as nat).message_keys())
    }
}

/// A message yields a text exactly where there are keys that open it and the code of the
/// envelope is that of its message under them; the text is what the cipher text was
/// made from. Each refusal comes exactly on the messages it is for.
pub proof fn law_result_of_message<E>(
    s: SessionStateView,
    env: EnvelopeView,
    m: CipherMessageView,
)
    ensures
        ({
            let r = s.decrypt_result::<E>(env, m);
            let idx = s.chain_for(m.ratchet_key).chain_key.idx;
            let keys = opening_keys(s, m);
            let sealed = keys matches Some(mk) && env.mac == hmac_sha256(
                mk.mac_key,
                Message::bytes(env.message),
            );
            &&& r is Ok <==> sealed
            &&& r matches Ok(text) ==> text.len() == m.cipher_text.len() && forall|i: int|
                #![trigger text[i]]
                0 <= i < text.len() ==> text[i] == m.cipher_text[i] ^ chacha20_stream(
                    keys->0.cipher_key,
                    counter_nonce(keys->0.counter),
                    i,
                )
            &&& r == Err::<Seq<u8>, DecryptError<E>>(DecryptError::InvalidSignature) <==> m.counter
                >= idx && keys is Some && !sealed
            &&& r == Err::<Seq<u8>, DecryptError<E>>(DecryptError::TooDistantFuture) <==> m.counter
                > idx + 1000
            &&& r == Err::<Seq<u8>, DecryptError<E>>(DecryptError::OutdatedMessage) <==> m.counter
                < idx && s.skipped_msgkeys.len() > 0 && s.skipped_msgkeys[0].counter > m.counter
            &&& r == Err::<Seq<u8>, DecryptError<E>>(DecryptError::InvalidMessage) <==> m.counter
                < idx && keys is Some && !sealed
            &&& r == Err::<Seq<u8>, DecryptError<E>>(DecryptError::DuplicateMessage) <==> m.counter
                < idx && keys is None && !(s.skipped_msgkeys.len() > 0
                && s.skipped_msgkeys[0].counter > m.counter)
        }),
{
    if let Some(mk) = opening_keys(s, m) {
        law_cipher_text(mk, m.cipher_text);
    }
}

/// A message under a ratchet key that a state has a chain for starts no chains: what is
/// sent from now on is as before, and of the chains only those under that key may move.
pub proof fn law_known_key_starts_nothing(
    s: SessionStateView,
    env: EnvelopeView,
    m: CipherMessageView,
    fresh: KeyPairView,
    i: int,
)
    requires
        0 <= i < s.recv_chains.len(),
        s.recv_chains[i].ratchet_key == m.ratchet_key,
    ensures
        ({
            let after = s.decrypt_state(env, m, fresh);
            &&& after.root_key == s.root_key
            &&& after.send_chain == s.send_chain
            &&& after.prev_counter == s.prev_counter
            &&& after.recv_chains.len() == s.recv_chains.len()
            &&& forall|j: int|
                0 <= j < s.recv_chains.len() ==> (#[trigger] after.recv_chains[j]).ratchet_key
                    == s.recv_chains[j].ratchet_key
            &&& forall|j: int|
                0 <= j < s.recv_chains.len() && s.recv_chains[j].ratchet_key != m.ratchet_key
                    ==> #[trigger] after.recv_chains[j] == s.recv_chains[j]
        }),
{
    law_chain_is_found(s.recv_chains, m.ratchet_key);
    lemma_found_key(s.recv_chains, m.ratchet_key);
}

/// A message under a ratchet key that a state has no chain for starts two: one to
/// receive, in front of the others, and one to send under a fresh ratchet key, each from
/// a step of the root key. From now on messages say how many texts were sent on the
/// chain before. The other chains stay as they are, but for the last of five.
pub proof fn law_new_key_starts_chains(
    s: SessionStateView,
    env: EnvelopeView,
    m: CipherMessageView,
    fresh: KeyPairView,
)
    requires
        forall|i: int|
            0 <= i < s.recv_chains.len() ==> (#[trigger] s.recv_chains[i]).ratchet_key
                != m.ratchet_key,
    ensures
        ({
            let after = s.decrypt_state(env, m, fresh);
            let receiving = hkdf_sha256(
                s.root_key,
                x25519(s.send_chain.ratchet_key.secret, m.ratchet_key),
                encode_utf8("dh_ratchet"@),
                64,
            );
            let sending = hkdf_sha256(
                receiving.subrange(0, 32),
                x25519(fresh.secret, m.ratchet_key),
                encode_utf8("dh_ratchet"@),
                64,
            );
            &&& after.root_key == sending.subrange(0, 32)
            &&& after.send_chain.ratchet_key == fresh
            &&& after.send_chain.chain_key.key == sending.subrange(32, 64)
            &&& after.send_chain.chain_key.idx == 0
            &&& after.prev_counter == s.send_chain.chain_key.idx
            &&& after.recv_chains.len() == (if s.recv_chains.len() == 5 {
                5
            } else {
                s.recv_chains.len() + 1
            })
            &&& after.recv_chains[0].ratchet_key == m.ratchet_key
            &&& forall|j: int|
                0 <= j < after.recv_chains.len() - 1 ==> #[trigger] s.recv_chains[j]
                    == after.recv_chains[j + 1]
        }),
{
    law_chain_is_found(s.recv_chains, m.ratchet_key);
    let located = s.located(m.ratchet_key, fresh);
    let after = s.decrypt_state(env, m, fresh);
    assert forall|j: int| 0 <= j < after.recv_chains.len() - 1 implies #[trigger] s.recv_chains[j]
        == after.recv_chains[j + 1] by {
        assert(located.recv_chains[j + 1] == s.recv_chains[j]);
    }
}

/// Where a message yields a text and does not lie behind, the chain of its ratchet key
/// stands behind its position afterwards. In every other case each chain that was there
/// stays where it is.
pub proof fn law_chain_after_message<E>(
    s: SessionStateView,
    env: EnvelopeView,
    m: CipherMessageView,
    fresh: KeyPairView,
)
    ensures
        ({
            let after = s.decrypt_state(env, m, fresh);
            let ck = s.chain_for(m.ratchet_key).chain_key;
            if s.decrypt_result::<E>(env, m) is Ok && m.counter >= ck.idx {
                find_chain(after.recv_chains, m.ratchet_key) == Some(
                    RecvChainView {
                        chain_key: ck.advanced((m.counter - ck.idx + 1) as nat),
                        ratchet_key: m.ratchet_key,
                    },
                )
            } else {
                &&& find_chain(after.recv_chains, m.ratchet_key) == Some(
                    s.chain_for(m.ratchet_key),
                )
                &&& find_chain(s.recv_chains, m.ratchet_key) is Some ==> after.recv_chains
                    == s.recv_chains
            }
        }),
{
    lemma_located(s, m.ratchet_key, fresh);
    let located = s.located(m.ratchet_key, fresh);
    let ck = s.chain_for(m.ratchet_key).chain_key;
    if m.counter >= ck.idx {
        let gap = (m.counter - ck.idx) as nat;
        lemma_find_moved(located.recv_chains, m.ratchet_key, ck.advanced(gap).next());
        assert(ck.advanced(gap + 1) == ck.advanced(gap).next());
    }
}

/// Where a message yields a text and does not lie behind, every kept key stays kept, but
/// for as many of the first as are over a thousand together with the keys of the
/// messages that were passed over; those are kept too. A text that arrives in order
/// leaves the kept keys alone.
pub proof fn law_kept_keys_stay<E>(
    s: SessionStateView,
    env: EnvelopeView,
    m: CipherMessageView,
    fresh: KeyPairView,
)
    requires
        s.decrypt_result::<E>(env, m) is Ok,
        m.counter >= s.chain_for(m.ratchet_key).chain_key.idx,
    ensures
        ({
            let after = s.decrypt_state(env, m, fresh).skipped_msgkeys;
            let ck = s.chain_for(m.ratchet_key).chain_key;
            let passed = m.counter - ck.idx;
            let lost = if passed > 0 && s.skipped_msgkeys.len() + passed > 1000 {
                s.skipped_msgkeys.len() + passed - 1000
            } else {
                0
            };
            &&& passed == 0 ==> after == s.skipped_msgkeys
            &&& after.len() == s.skipped_msgkeys.len() + passed - lost
            &&& forall|i: int|
                lost <= i < s.skipped_msgkeys.len() ==> #[trigger] s.skipped_msgkeys[i]
                    == after[i - lost]
            &&& forall|i: int|
                0 <= i < passed ==> #[trigger] ck.advanced(i as nat).message_keys()
                    == after[after.len() - 1 - i]
        }),
{
    let ck = s.chain_for(m.ratchet_key).chain_key;
    lemma_located(s, m.ratchet_key, fresh);
    law_keys_are_kept(s.skipped_msgkeys, ck, (m.counter - ck.idx) as nat);
}

/// A text that arrives in order leaves the kept keys alone.
pub proof fn law_in_order_leaves_kept_keys(
    s: SessionStateView,
    env: EnvelopeView,
    m: CipherMessageView,
    fresh: KeyPairView,
)
    requires
        m.counter == s.chain_for(m.ratchet_key).chain_key.idx,
    ensures
        s.decrypt_state(env, m, fresh).skipped_msgkeys == s.skipped_msgkeys,
{
    lemma_located(s, m.ratchet_key, fresh);
}

/// Where a message does not yield a text or lies behind, no key is added to the kept
/// ones. Only the keys for the position of a message that lies behind and is not
/// outdated are taken out.
pub proof fn law_kept_keys_otherwise<E>(
    s: SessionStateView,
    env: EnvelopeView,
    m: CipherMessageView,
    fresh: KeyPairView,
)
    ensures
        ({
            let after = s.decrypt_state(env, m, fresh).skipped_msgkeys;
            let idx = s.chain_for(m.ratchet_key).chain_key.idx;
            &&& m.counter < idx && (s.skipped_msgkeys.len() == 0 || s.skipped_msgkeys[0].counter
                <= m.counter) ==> after == other_keys(s.skipped_msgkeys, m.counter)
            &&& m.counter < idx && s.skipped_msgkeys.len() > 0 && s.skipped_msgkeys[0].counter
                > m.counter ==> after == s.skipped_msgkeys
            &&& m.counter >= idx && s.decrypt_result::<E>(env, m) is Err ==> after
                == s.skipped_msgkeys
        }),
{
    lemma_located(s, m.ratchet_key, fresh);
}

// The chain before

proof fn lemma_sent_texts(s: SessionStateView, n: nat)
    ensures
        sent_texts(s, n) == (SessionStateView {
            send_chain: sent_texts(s, n).send_chain,
            ..s
        }),
        sent_texts(s, n).send_chain.ratchet_key == s.send_chain.ratchet_key,
        sent_texts(s, n).send_chain.chain_key == s.send_chain.chain_key.advanced(n),
    decreases n,
{
    if n > 0 {
        lemma_sent_texts(s, (n - 1) as nat);
    }
}

/// A message says how many texts were sent on the chain before its own. On the first
/// chain that is none; once a chain on which `n` texts were sent gives way to a new one,
/// each message on the new one says `n`, however many there are.
pub proof fn law_prev_counter_counts_texts(
    first: SessionStateView,
    s: SessionStateView,
    n: nat,
    env: EnvelopeView,
    m: CipherMessageView,
    fresh: KeyPairView,
    k: nat,
    ident: Seq<u8>,
    pending: Option<(u16, Seq<u8>)>,
    plain: Seq<u8>,
)
    requires
        first.prev_counter == 0,
        s.send_chain.chain_key.idx == 0,
        n <= u32::MAX,
        find_chain(s.recv_chains, m.ratchet_key) is None,
    ensures
        sent_texts(first, k).message(ident, pending, plain).cipher().prev_counter == 0,
        ({
            let turned = sent_texts(s, n).decrypt_state(env, m, fresh);
            &&& turned.send_chain.ratchet_key == fresh
            &&& sent_texts(turned, k).message(ident, pending, plain).cipher().prev_counter == n
        }),
{
    lemma_sent_texts(first, k);
    lemma_sent_texts(s, n);
    lemma_advanced_idx(s.send_chain.chain_key, n);
    law_chain_is_found(s.recv_chains, m.ratchet_key);
    let turned = sent_texts(s, n).decrypt_state(env, m, fresh);
    law_new_key_starts_chains(sent_texts(s, n), env, m, fresh);
    lemma_sent_texts(turned, k);
}

// Late texts

proof fn lemma_stream_keeps_keys(
    receiver: SessionStateView,
    sender: SessionStateView,
    ident: Seq<u8>,
    pending: Option<(u16, Seq<u8>)>,
    texts: Seq<Seq<u8>>,
    fresh: Seq<KeyPairView>,
    n: nat,
)
    requires
        ahead(receiver, sender, 0),
        find_chain(receiver.recv_chains, sender.send_chain.ratchet_key.public) is Some,
        sender.send_chain.chain_key.idx + n <= u32::MAX,
    ensures
        ({
            let after = received_texts(receiver, sender, ident, pending, texts, fresh, n);
            &&& after.skipped_msgkeys == receiver.skipped_msgkeys
            &&& find_chain(after.recv_chains, sender.send_chain.ratchet_key.public) is Some
            &&& after.chain_for(sender.send_chain.ratchet_key.public).chain_key.idx
                == sender.send_chain.chain_key.idx + n
        }),
    decreases n,
{
    if n == 0 {
        assert(receiver.chain_for(
            sender.send_chain.ratchet_key.public,
        ).chain_key.advanced(0) == sender.send_chain.chain_key);
    } else {
        let k = (n - 1) as nat;
        lemma_stream_keeps_keys(receiver, sender, ident, pending, texts, fresh, k);
        lemma_stream_in_step(receiver, sender, ident, pending, texts, fresh, k);
        lemma_sent_texts(sender, k);
        lemma_advanced_idx(sender.send_chain.chain_key, k);
        let before = received_texts(receiver, sender, ident, pending, texts, fresh, k);
        let sending = sent_texts(sender, k);
        let env = sending.envelope(ident, pending, texts[k as int]);
        let m = env.message.cipher();
        law_sent_is_received::<()>(before, sending, 0, ident, pending, texts[k as int]);
        law_kept_keys_stay::<()>(before, env, m, fresh[k as int]);
        law_chain_after_message::<()>(before, env, m, fresh[k as int]);
        let ck = before.chain_for(m.ratchet_key).chain_key;
        assert(ck.advanced(0) == ck);
        assert(ck.advanced(1) == ck.advanced(0).next());
    }
}

/// A text that was passed over is still received, unless it is outdated, after the one
/// that passed it over and any number of further texts arrived in order. No kept key of
/// another chain may be for its position.
pub proof fn law_passed_over_survives<E>(
    receiver: SessionStateView,
    late: SessionStateView,
    sender: SessionStateView,
    gap: nat,
    i: nat,
    ident: Seq<u8>,
    pending: Option<(u16, Seq<u8>)>,
    plain: Seq<u8>,
    late_plain: Seq<u8>,
    first: KeyPairView,
    texts: Seq<Seq<u8>>,
    fresh: Seq<KeyPairView>,
    n: nat,
)
    requires
        ahead(receiver, late, i),
        ahead(receiver, sender, gap),
        late.send_chain.ratchet_key == sender.send_chain.ratchet_key,
        i < gap <= MAX_COUNTER_GAP,
        sender.send_chain.chain_key.idx + 1 + n <= u32::MAX,
        forall|k: int|
            0 <= k < receiver.skipped_msgkeys.len() ==> (
            #[trigger] receiver.skipped_msgkeys[k]).counter != late.send_chain.chain_key.idx,
    ensures
        ({
            let env = sender.envelope(ident, pending, plain);
            let passed = receiver.decrypt_state(env, env.message.cipher(), first);
            let then = received_texts(passed, sender.sent(), ident, pending, texts, fresh, n);
            let late_env = late.envelope(ident, pending, late_plain);
            &&& then.skipped_msgkeys == passed.skipped_msgkeys
            &&& then.decrypt_result::<E>(late_env, late_env.message.cipher()) == if passed.
            skipped_msgkeys.len() > 0 && passed.skipped_msgkeys[0].counter
                > late.send_chain.chain_key.idx {
                Err::<Seq<u8>, DecryptError<E>>(DecryptError::OutdatedMessage)
            } else {
                Ok(late_plain)
            }
        }),
{
    let key = sender.send_chain.ratchet_key.public;
    let env = sender.envelope(ident, pending, plain);
    let m = env.message.cipher();
    let ck = receiver.chain_for(key).chain_key;
    let passed = receiver.decrypt_state(env, m, first);
    lemma_advanced_idx(ck, gap);
    lemma_passed_over(receiver, late, sender, gap, i, ident, pending, plain, first);
    law_sent_is_received::<E>(receiver, sender, gap, ident, pending, plain);
    law_chain_after_message::<E>(receiver, env, m, first);
    lemma_committed_find(receiver.skipped_msgkeys, ck, gap, i);
    let sent = sender.sent();
    assert(passed.chain_for(key).chain_key == sent.send_chain.chain_key) by {
        assert(ck.advanced(gap + 1) == ck.advanced(gap).next());
    }
    assert(ahead(passed, sent, 0)) by {
        let pk = passed.chain_for(key).chain_key;
        assert(pk.advanced(0) == pk);
    }
    lemma_stream_keeps_keys(passed, sent, ident, pending, texts, fresh, n);
    let then = received_texts(passed, sent, ident, pending, texts, fresh, n);
    law_kept_key_opens::<E>(then, late, ident, pending, late_plain, first);
}

} // verus!
