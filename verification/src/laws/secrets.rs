//! How keys, codes and cipher texts come from the primitives.
use vstd::prelude::*;

#[allow(unused_imports)]
use crate::derived::{derived_secrets, split_okm, stream_xor};
#[allow(unused_imports)]
use crate::keys::{
    agreeable, batch_id, hex, public_of, KeyPairView, PreKeyBundleView, MAX_PREKEY_ID,
};
#[allow(unused_imports)]
use crate::message::{counter_nonce, next_counter, EnvelopeView, Message, MessageView};
#[allow(unused_imports)]
use crate::primitives::{base_point, chacha20_stream, hkdf_sha256, hmac_sha256, x25519};
#[allow(unused_imports)]
use crate::session::chain::{dh_ratchet, ChainKeyView, MessageKeysView, RecvChainView};
#[allow(unused_imports)]
use crate::session::error::{error_name, DecryptError};
#[allow(unused_imports)]
use crate::session::state::SessionStateView;
#[allow(unused_imports)]
use crate::laws::bytes::law_four_bytes;
#[allow(unused_imports)]
use crate::wire::{be32, Wire};
#[allow(unused_imports)]
use vstd::utf8::encode_utf8;

verus! {

/// Derived keys are the two halves of what HKDF gives for the input, the salt and the
/// info string.
pub proof fn law_derived_keys(input: Seq<u8>, salt: Seq<u8>, info: Seq<u8>)
    ensures
        derived_secrets(input, salt, info).cipher_key == hkdf_sha256(
            salt,
            input,
            info,
            64,
        ).subrange(0, 32),
        derived_secrets(input, salt, info).mac_key == hkdf_sha256(
            salt,
            input,
            info,
            64,
        ).subrange(32, 64),
{
}

/// Of derived bytes, the first half is the key that encrypts and the second the key that
/// authenticates.
pub proof fn law_halves(okm: Seq<u8>)
    requires
        okm.len() == 64,
    ensures
        split_okm(okm).cipher_key.len() == 32,
        split_okm(okm).mac_key.len() == 32,
        split_okm(okm).cipher_key + split_okm(okm).mac_key == okm,
{
    assert(okm.subrange(0, 32) + okm.subrange(32, 64) =~= okm);
}

/// Under any key and nonce, each byte of a text is combined with the byte of the key
/// stream at its place.
pub proof fn law_key_stream(key: Seq<u8>, nonce: Seq<u8>, text: Seq<u8>)
    ensures
        stream_xor(key, nonce, text).len() == text.len(),
        forall|i: int|
            #![trigger stream_xor(key, nonce, text)[i]]
            0 <= i < text.len() ==> stream_xor(key, nonce, text)[i] == text[i] ^ chacha20_stream(
                key,
                nonce,
                i,
            ),
{
}

/// A cipher text has the length of the text, and each of its bytes differs from that
/// of the text by a byte that depends on the keys, the counter and the place alone.
pub proof fn law_cipher_text(mk: MessageKeysView, text: Seq<u8>)
    ensures
        mk.crypt(text).len() == text.len(),
        forall|i: int|
            #![trigger mk.crypt(text)[i]]
            0 <= i < text.len() ==> mk.crypt(text)[i] == text[i] ^ chacha20_stream(
                mk.cipher_key,
                counter_nonce(mk.counter),
                i,
            ),
{
}

/// A counter is followed by the next number, and different counters make different
/// nonces: the four bytes of the number, the highest first, and four zeros.
pub proof fn law_counters(c: u32, d: u32)
    ensures
        next_counter(c) == (c + 1) % 0x1_0000_0000,
        counter_nonce(c).len() == 8,
        c == counter_nonce(c)[0] * 0x1000000 + counter_nonce(c)[1] * 0x10000 + counter_nonce(c)[2]
            * 0x100 + counter_nonce(c)[3],
        forall|i: int| 4 <= i < 8 ==> #[trigger] counter_nonce(c)[i] == 0,
        counter_nonce(c) == counter_nonce(d) ==> c == d,
{
    law_four_bytes(c);
    assert(counter_nonce(c).subrange(0, 4) =~= be32(c));
    assert(counter_nonce(d).subrange(0, 4) =~= be32(d));
    assert(counter_nonce(c)[0] == be32(c)[0] && counter_nonce(c)[1] == be32(c)[1]);
    assert(counter_nonce(c)[2] == be32(c)[2] && counter_nonce(c)[3] == be32(c)[3]);
    if counter_nonce(c) == counter_nonce(d) {
        u32::lemma_prefix_free(c, d, Seq::empty(), Seq::empty());
    }
}

/// A chain key is followed by the code of the digit one under it, at the next
/// position. The keys of a message are derived from the code of the digit zero, and
/// are for the position of the chain key.
pub proof fn law_chain_step(ck: ChainKeyView)
    ensures
        ck.next().key == hmac_sha256(ck.key, encode_utf8("1"@)),
        ck.next().idx == (ck.idx + 1) % 0x1_0000_0000,
        ck.message_keys().cipher_key == hkdf_sha256(
            Seq::empty(),
            hmac_sha256(ck.key, encode_utf8("0"@)),
            encode_utf8("hash_ratchet"@),
            64,
        ).subrange(0, 32),
        ck.message_keys().mac_key == hkdf_sha256(
            Seq::empty(),
            hmac_sha256(ck.key, encode_utf8("0"@)),
            encode_utf8("hash_ratchet"@),
            64,
        ).subrange(32, 64),
        ck.message_keys().counter == ck.idx,
{
}

/// Steps along a chain add up.
pub proof fn law_chain_steps_add_up(ck: ChainKeyView, a: nat, b: nat)
    ensures
        ck.advanced(0) == ck,
        ck.advanced(1) == ck.next(),
        ck.advanced(a).advanced(b) == ck.advanced(a + b),
    decreases b,
{
    reveal_with_fuel(ChainKeyView::advanced, 2);
    if b > 0 {
        law_chain_steps_add_up(ck, a, (b - 1) as nat);
    }
}

/// The next root key and the chain that starts from it are derived from the root key
/// and the secret that is shared.
pub proof fn law_root_step(root: Seq<u8>, ours: Seq<u8>, theirs: Seq<u8>)
    ensures
        ({
            let okm = hkdf_sha256(root, x25519(ours, theirs), encode_utf8("dh_ratchet"@), 64);
            let (next, chain) = dh_ratchet(root, ours, theirs);
            &&& next == okm.subrange(0, 32)
            &&& chain.key == okm.subrange(32, 64)
            &&& chain.idx == 0
        }),
{
}

/// The public key of a key pair is the multiple of the base point by the secret key.
pub proof fn law_key_pairs(a: KeyPairView)
    ensures
        a.valid() ==> a.secret.len() == 32 && a.public.len() == 32 && a.public == x25519(
            a.secret,
            base_point(),
        ),
        a.secret.len() == 32 && a.public.len() == 32 && a.public == x25519(a.secret, base_point())
            && agreeable(a.secret) ==> a.valid(),
        public_of(a.secret) == x25519(a.secret, base_point()),
        agreeable(a.secret) <==> forall|s: Seq<u8>|
            #![trigger x25519(s, base_point())]
            s.len() == 32 ==> x25519(s, x25519(a.secret, base_point())) == x25519(
                a.secret,
                x25519(s, base_point()),
            ),
        base_point().len() == 32,
        base_point()[0] == 9,
        forall|i: int| 0 < i < 32 ==> #[trigger] base_point()[i] == 0,
{
    reveal(agreeable);
    if agreeable(a.secret) {
        assert forall|s: Seq<u8>|
            #![trigger x25519(s, base_point())]
            s.len() == 32 implies x25519(s, x25519(a.secret, base_point())) == x25519(
            a.secret,
            x25519(s, base_point()),
        ) by {
            assert(public_of(s) == x25519(s, base_point()));
        }
    }
}

/// An envelope is sealed with the code of its message under the key, and is authentic
/// under exactly the keys whose code it carries.
pub proof fn law_seals(key: Seq<u8>, message: MessageView, env: EnvelopeView)
    ensures
        EnvelopeView::seal(key, message).message == message,
        EnvelopeView::seal(key, message).mac == hmac_sha256(key, Message::bytes(message)),
        env.authentic(key) <==> env.mac == hmac_sha256(key, Message::bytes(env.message)),
{
}

/// The side that starts a session derives its keys from three shared secrets: that of
/// its identity and the prekey, of its base key and the peer's identity, and of its
/// base key and the prekey. It expects the peer under the prekey, and starts the first
/// chain of its own under a ratchet key.
pub proof fn law_starting_side(
    ident: KeyPairView,
    base: KeyPairView,
    bob: PreKeyBundleView,
    ratchet: KeyPairView,
)
    ensures
        ({
            let s = SessionStateView::alice(ident, base, bob, ratchet);
            let okm = hkdf_sha256(
                Seq::empty(),
                x25519(ident.secret, bob.public_key) + x25519(base.secret, bob.identity_key)
                    + x25519(base.secret, bob.public_key),
                encode_utf8("handshake"@),
                64,
            );
            let sending = hkdf_sha256(
                okm.subrange(0, 32),
                x25519(ratchet.secret, bob.public_key),
                encode_utf8("dh_ratchet"@),
                64,
            );
            &&& s.recv_chains.len() == 1
            &&& s.recv_chains[0].ratchet_key == bob.public_key
            &&& s.recv_chains[0].chain_key.key == okm.subrange(32, 64)
            &&& s.recv_chains[0].chain_key.idx == 0
            &&& s.send_chain.ratchet_key == ratchet
            &&& s.send_chain.chain_key.key == sending.subrange(32, 64)
            &&& s.send_chain.chain_key.idx == 0
            &&& s.root_key == sending.subrange(0, 32)
            &&& s.prev_counter == 0
            &&& s.skipped_msgkeys.len() == 0
        }),
{
}

/// The other side derives its keys from the same three secrets. It has no chain to
/// receive yet, and sends under the prekey.
pub proof fn law_answering_side(
    ident: KeyPairView,
    prekey: KeyPairView,
    alice: Seq<u8>,
    base: Seq<u8>,
)
    ensures
        ({
            let s = SessionStateView::bob(ident, prekey, alice, base);
            let okm = hkdf_sha256(
                Seq::empty(),
                x25519(prekey.secret, alice) + x25519(ident.secret, base) + x25519(
                    prekey.secret,
                    base,
                ),
                encode_utf8("handshake"@),
                64,
            );
            &&& s.recv_chains.len() == 0
            &&& s.send_chain.ratchet_key == prekey
            &&& s.send_chain.chain_key.key == okm.subrange(32, 64)
            &&& s.send_chain.chain_key.idx == 0
            &&& s.root_key == okm.subrange(0, 32)
            &&& s.prev_counter == 0
            &&& s.skipped_msgkeys.len() == 0
        }),
{
}

/// The numbers of a batch of prekeys follow one another, never name the prekey of last
/// resort, and do not repeat within as many as there are.
pub proof fn law_prekey_numbers(start: u16, i: int, j: int)
    requires
        0 <= i,
        0 <= j,
    ensures
        0 <= batch_id(start, i) < 65535,
        start < 65535 ==> batch_id(start, 0) == start,
        start == 65535 ==> batch_id(start, 0) == 0,
        MAX_PREKEY_ID == 65535,
        batch_id(start, i + 1) == (if batch_id(start, i) == 65534 {
            0
        } else {
            batch_id(start, i) + 1
        }),
        i < j < i + 65535 ==> batch_id(start, i) != batch_id(start, j),
{
}

/// The value of a hexadecimal digit.
pub open spec fn digit_value(c: char) -> int {
    if '0' <= c <= '9' {
        c as int - '0' as int
    } else {
        c as int - 'a' as int + 10
    }
}

/// A text in hexadecimal has two digits for each byte, from which the byte is read
/// back.
pub proof fn law_hexadecimal(b: Seq<u8>)
    ensures
        hex(b).len() == 2 * b.len(),
        forall|i: int|
            #![trigger b[i]]
            0 <= i < b.len() ==> b[i] == 16 * digit_value(hex(b)[2 * i]) + digit_value(
                hex(b)[2 * i + 1],
            ),
        forall|i: int|
            0 <= i < hex(b).len() ==> ('0' <= #[trigger] hex(b)[i] <= '9' || 'a' <= hex(b)[i]
                <= 'f'),
    decreases b.len(),
{
    reveal_strlit("0123456789abcdef");
    if b.len() > 0 {
        let rest = b.drop_last();
        law_hexadecimal(rest);
        assert forall|i: int| #![trigger b[i]] 0 <= i < b.len() implies b[i] == 16 * digit_value(
            hex(b)[2 * i],
        ) + digit_value(hex(b)[2 * i + 1]) by {
            if i < rest.len() {
                assert(rest[i] == b[i]);
                assert(hex(b)[2 * i] == hex(rest)[2 * i]);
                assert(hex(b)[2 * i + 1] == hex(rest)[2 * i + 1]);
            }
        }
        assert forall|i: int| 0 <= i < hex(b).len() implies ('0' <= #[trigger] hex(b)[i] <= '9'
            || 'a' <= hex(b)[i] <= 'f') by {
            if i < hex(rest).len() {
                assert(hex(b)[i] == hex(rest)[i]);
            }
        }
    }
}

/// Each error has its name, whatever the store's error is.
pub proof fn law_error_names<E>(e: E)
    ensures
        error_name(DecryptError::<E>::RemoteIdentityChanged) == "RemoteIdentityChanged"@,
        error_name(DecryptError::<E>::InvalidSignature) == "InvalidSignature"@,
        error_name(DecryptError::<E>::InvalidMessage) == "InvalidMessage"@,
        error_name(DecryptError::<E>::DuplicateMessage) == "DuplicateMessage"@,
        error_name(DecryptError::<E>::TooDistantFuture) == "TooDistantFuture"@,
        error_name(DecryptError::<E>::OutdatedMessage) == "OutdatedMessage"@,
        error_name(DecryptError::PreKeyStoreError(e)) == "PreKeyStoreError"@,
{
}

} // verus!
