//! The state of one session: a chain to send, chains to receive, and the keys of
//! messages that were passed over.
use vstd::prelude::*;

use crate::derived::{DerivedSecrets, Info, Input};
#[allow(unused_imports)]
use crate::derived::{derived_secrets, DerivedSecretsView};
#[allow(unused_imports)]
use crate::keys::{public_of, KeyPairView, PreKeyBundleView};
use crate::keys::{IdentityKey, IdentityKeyPair, KeyPair, PreKeyBundle, PreKeyId, PublicKey};
use crate::list::List;
use crate::message::{CipherMessage, Counter, Envelope, Message, PreKeyMessage};
#[allow(unused_imports)]
use crate::message::{
    next_counter, CipherMessageView, EnvelopeView, MessageView, PreKeyMessageView,
};
#[allow(unused_imports)]
use crate::primitives::{x25519, MAX_TEXT_LEN};
use crate::session::chain::{ChainKey, MessageKeys, RecvChain, RootKey, SendChain};
#[allow(unused_imports)]
use crate::session::chain::{
    dh_ratchet, ChainKeyView, MessageKeysView, RecvChainView, SendChainView,
};
use crate::session::error::DecryptError;
#[allow(unused_imports)]
use vstd::utf8::encode_utf8;

verus! {

/// How many receive chains a state keeps.
pub const MAX_RECV_CHAINS: usize = 5;

/// How many messages may be passed over at once, and how many keys of passed
/// over messages a state keeps.
pub const MAX_COUNTER_GAP: usize = 1000;

/// The state of one session.
pub struct SessionState {
    pub recv_chains: List<RecvChain>,
    pub send_chain: SendChain,
    pub root_key: RootKey,
    pub prev_counter: Counter,
    pub skipped_msgkeys: List<MessageKeys>,
}

/// The model of [`SessionState`].
#[verifier::ext_equal]
pub struct SessionStateView {
    pub recv_chains: Seq<RecvChainView>,
    pub send_chain: SendChainView,
    pub root_key: Seq<u8>,
    pub prev_counter: u32,
    pub skipped_msgkeys: Seq<MessageKeysView>,
}

impl View for SessionState {
    type V = SessionStateView;

    open spec fn view(&self) -> SessionStateView {
        SessionStateView {
            recv_chains: self.recv_chains@,
            send_chain: self.send_chain@,
            root_key: self.root_key@,
            prev_counter: self.prev_counter@,
            skipped_msgkeys: self.skipped_msgkeys@,
        }
    }
}

impl Clone for SessionState {
    fn clone(&self) -> (r: SessionState)
        ensures
            r@ == self@,
    {
        SessionState {
            recv_chains: self.recv_chains.clone(),
            send_chain: self.send_chain,
            root_key: self.root_key,
            prev_counter: self.prev_counter,
            skipped_msgkeys: self.skipped_msgkeys.clone(),
        }
    }
}

/// `x` in front of `s`, which loses its last item if it holds `cap` of them.
pub open spec fn cons_capped<T>(s: Seq<T>, x: T, cap: int) -> Seq<T> {
    if s.len() == cap {
        seq![x] + s.drop_last()
    } else {
        seq![x] + s
    }
}

/// The first chain under a ratchet key.
pub open spec fn find_chain(chains: Seq<RecvChainView>, key: Seq<u8>) -> Option<RecvChainView>
    decreases chains.len(),
{
    if chains.len() == 0 {
        None
    } else if chains[0].ratchet_key == key {
        Some(chains[0])
    } else {
        find_chain(chains.drop_first(), key)
    }
}

/// The chains, with those under a ratchet key moved to a chain key.
pub open spec fn move_chain(
    chains: Seq<RecvChainView>,
    key: Seq<u8>,
    chain_key: ChainKeyView,
) -> Seq<RecvChainView> {
    Seq::new(
        chains.len(),
        |i: int|
            if chains[i].ratchet_key == key {
                RecvChainView { chain_key, ratchet_key: key }
            } else {
                chains[i]
            },
    )
}

/// The first of the kept keys that is for position `counter`.
pub open spec fn find_keys(skipped: Seq<MessageKeysView>, counter: u32) -> Option<MessageKeysView>
    decreases skipped.len(),
{
    if skipped.len() == 0 {
        None
    } else if skipped[0].counter == counter {
        Some(skipped[0])
    } else {
        find_keys(skipped.drop_first(), counter)
    }
}

/// The kept keys that are not for position `counter`.
pub open spec fn other_keys(skipped: Seq<MessageKeysView>, counter: u32) -> Seq<MessageKeysView> {
    skipped.filter(|k: MessageKeysView| k.counter != counter)
}

/// Whether the first of the kept keys is for a position after `counter`.
pub open spec fn too_old(skipped: Seq<MessageKeysView>, counter: u32) -> bool {
    skipped.len() > 0 && skipped[0].counter > counter
}

/// The keys of the `n` messages from `chain_key` on, the last one first.
pub open spec fn staged(chain_key: ChainKeyView, n: nat) -> Seq<MessageKeysView> {
    Seq::new(n, |i: int| chain_key.advanced((n - 1 - i) as nat).message_keys())
}

/// The kept keys after `staged` joined them: as many of the first as are over the
/// limit give way.
pub open spec fn committed(
    skipped: Seq<MessageKeysView>,
    staged: Seq<MessageKeysView>,
) -> Seq<MessageKeysView> {
    let excess = skipped.len() + staged.len() - MAX_COUNTER_GAP;
    if excess > 0 {
        skipped.skip(excess) + staged
    } else {
        skipped + staged
    }
}

/// The text of a result.
pub open spec fn text_of<E>(r: Result<Vec<u8>, DecryptError<E>>) -> Result<
    Seq<u8>,
    DecryptError<E>,
> {
    match r {
        Ok(text) => Ok(text@),
        Err(e) => Err(e),
    }
}

/// What a message at a position that lies behind yields.
pub open spec fn skipped_result<E>(
    skipped: Seq<MessageKeysView>,
    env: EnvelopeView,
    m: CipherMessageView,
) -> Result<Seq<u8>, DecryptError<E>> {
    if too_old(skipped, m.counter) {
        Err(DecryptError::OutdatedMessage)
    } else {
        match find_keys(skipped, m.counter) {
            Some(mk) => if env.authentic(mk.mac_key) {
                Ok(mk.crypt(m.cipher_text))
            } else {
                Err(DecryptError::InvalidMessage)
            },
            None => Err(DecryptError::DuplicateMessage),
        }
    }
}

/// The kept keys after a message at a position that lies behind was looked at.
pub open spec fn skipped_left(skipped: Seq<MessageKeysView>, counter: u32) -> Seq<MessageKeysView> {
    if too_old(skipped, counter) {
        skipped
    } else {
        other_keys(skipped, counter)
    }
}

/// What a message yields whose chain stands at `chain_key`.
pub open spec fn chain_result<E>(
    chain_key: ChainKeyView,
    skipped: Seq<MessageKeysView>,
    env: EnvelopeView,
    m: CipherMessageView,
) -> Result<Seq<u8>, DecryptError<E>> {
    if m.counter < chain_key.idx {
        skipped_result(skipped, env, m)
    } else if m.counter - chain_key.idx > MAX_COUNTER_GAP {
        Err(DecryptError::TooDistantFuture)
    } else {
        let mk = chain_key.advanced((m.counter - chain_key.idx) as nat).message_keys();
        if env.authentic(mk.mac_key) {
            Ok(mk.crypt(m.cipher_text))
        } else {
            Err(DecryptError::InvalidSignature)
        }
    }
}

/// The keys that the two sides of a handshake derive from what they share.
pub open spec fn handshake(a: Seq<u8>, b: Seq<u8>, c: Seq<u8>) -> DerivedSecretsView {
    derived_secrets(a + b + c, Seq::empty(), encode_utf8("handshake"@))
}

impl SessionStateView {
    /// The state of the side that starts a session with a published prekey.
    pub open spec fn alice(
        ident: KeyPairView,
        base: KeyPairView,
        bob: PreKeyBundleView,
        ratchet: KeyPairView,
    ) -> SessionStateView {
        let d = handshake(
            x25519(ident.secret, bob.public_key),
            x25519(base.secret, bob.identity_key),
            x25519(base.secret, bob.public_key),
        );
        let (root_key, chain_key) = dh_ratchet(d.cipher_key, ratchet.secret, bob.public_key);
        SessionStateView {
            recv_chains: seq![
                RecvChainView {
                    chain_key: ChainKeyView { key: d.mac_key, idx: 0 },
                    ratchet_key: bob.public_key,
                },
            ],
            send_chain: SendChainView { chain_key, ratchet_key: ratchet },
            root_key,
            prev_counter: 0,
            skipped_msgkeys: Seq::empty(),
        }
    }

    /// The state of the side whose prekey was used.
    pub open spec fn bob(
        ident: KeyPairView,
        prekey: KeyPairView,
        alice_ident: Seq<u8>,
        alice_base: Seq<u8>,
    ) -> SessionStateView {
        let d = handshake(
            x25519(prekey.secret, alice_ident),
            x25519(ident.secret, alice_base),
            x25519(prekey.secret, alice_base),
        );
        SessionStateView {
            recv_chains: Seq::empty(),
            send_chain: SendChainView {
                chain_key: ChainKeyView { key: d.mac_key, idx: 0 },
                ratchet_key: prekey,
            },
            root_key: d.cipher_key,
            prev_counter: 0,
            skipped_msgkeys: Seq::empty(),
        }
    }

    /// The message that carries a text.
    pub open spec fn message(
        self,
        ident: Seq<u8>,
        pending: Option<(u16, Seq<u8>)>,
        plain: Seq<u8>,
    ) -> MessageView {
        let chain_key = self.send_chain.chain_key;
        let message = CipherMessageView {
            ratchet_key: self.send_chain.ratchet_key.public,
            counter: chain_key.idx,
            prev_counter: self.prev_counter,
            cipher_text: chain_key.message_keys().crypt(plain),
        };
        match pending {
            None => MessageView::Plain(message),
            Some((prekey_id, base_key)) => MessageView::Keyed(
                PreKeyMessageView { prekey_id, base_key, identity_key: ident, message },
            ),
        }
    }

    /// The envelope that carries a text.
    pub open spec fn envelope(
        self,
        ident: Seq<u8>,
        pending: Option<(u16, Seq<u8>)>,
        plain: Seq<u8>,
    ) -> EnvelopeView {
        EnvelopeView::seal(
            self.send_chain.chain_key.message_keys().mac_key,
            self.message(ident, pending, plain),
        )
    }

    /// The state after a text was sent.
    pub open spec fn sent(self) -> SessionStateView {
        SessionStateView {
            send_chain: SendChainView {
                chain_key: self.send_chain.chain_key.next(),
                ratchet_key: self.send_chain.ratchet_key,
            },
            ..self
        }
    }

    /// The state with new chains on both sides: one to receive under `theirs`, and
    /// one to send under `fresh`.
    pub open spec fn ratcheted(self, theirs: Seq<u8>, fresh: KeyPairView) -> SessionStateView {
        let (recv_root, recv_key) = dh_ratchet(
            self.root_key,
            self.send_chain.ratchet_key.secret,
            theirs,
        );
        let (send_root, send_key) = dh_ratchet(recv_root, fresh.secret, theirs);
        self.with_chains(send_root, recv_key, send_key, theirs, fresh)
    }

    /// The state with a given root key and given new chains.
    pub open spec fn with_chains(
        self,
        root_key: Seq<u8>,
        recv_key: ChainKeyView,
        send_key: ChainKeyView,
        theirs: Seq<u8>,
        fresh: KeyPairView,
    ) -> SessionStateView {
        SessionStateView {
            recv_chains: cons_capped(
                self.recv_chains,
                RecvChainView { chain_key: recv_key, ratchet_key: theirs },
                MAX_RECV_CHAINS as int,
            ),
            send_chain: SendChainView { chain_key: send_key, ratchet_key: fresh },
            root_key,
            prev_counter: self.send_chain.chain_key.idx,
            skipped_msgkeys: self.skipped_msgkeys,
        }
    }

    /// The chain that keys what comes under a ratchet key, whether it is there
    /// already or starts now.
    pub open spec fn chain_for(self, theirs: Seq<u8>) -> RecvChainView {
        match find_chain(self.recv_chains, theirs) {
            Some(c) => c,
            None => RecvChainView {
                chain_key: dh_ratchet(
                    self.root_key,
                    self.send_chain.ratchet_key.secret,
                    theirs,
                ).1,
                ratchet_key: theirs,
            },
        }
    }

    /// The state that has a chain under a ratchet key: with new chains, if there
    /// was none.
    pub open spec fn located(self, theirs: Seq<u8>, fresh: KeyPairView) -> SessionStateView {
        if find_chain(self.recv_chains, theirs) is Some {
            self
        } else {
            self.ratcheted(theirs, fresh)
        }
    }

    /// Whether `fresh` may be the key pair that was drawn for a message under a
    /// ratchet key. None is drawn, and it is any, if there is a chain already.
    pub open spec fn draws(self, theirs: Seq<u8>, fresh: KeyPairView) -> bool {
        find_chain(self.recv_chains, theirs) is None ==> fresh.valid()
    }

    /// What a message yields.
    pub open spec fn decrypt_result<E>(self, env: EnvelopeView, m: CipherMessageView) -> Result<
        Seq<u8>,
        DecryptError<E>,
    > {
        chain_result(self.chain_for(m.ratchet_key).chain_key, self.skipped_msgkeys, env, m)
    }

    /// The state after a message arrived for the chain `rc`.
    pub open spec fn received(
        self,
        rc: RecvChainView,
        env: EnvelopeView,
        m: CipherMessageView,
    ) -> SessionStateView {
        if m.counter < rc.chain_key.idx {
            SessionStateView {
                skipped_msgkeys: skipped_left(self.skipped_msgkeys, m.counter),
                ..self
            }
        } else {
            let gap = (m.counter - rc.chain_key.idx) as nat;
            let chain_key = rc.chain_key.advanced(gap);
            if gap <= MAX_COUNTER_GAP && env.authentic(chain_key.message_keys().mac_key) {
                self.passed(rc, gap)
            } else {
                self
            }
        }
    }

    /// The state in which the chain `rc` stands behind the message `gap` positions
    /// after its next one.
    pub open spec fn passed(self, rc: RecvChainView, gap: nat) -> SessionStateView {
        SessionStateView {
            recv_chains: move_chain(
                self.recv_chains,
                rc.ratchet_key,
                rc.chain_key.advanced(gap).next(),
            ),
            skipped_msgkeys: if gap == 0 {
                self.skipped_msgkeys
            } else {
                committed(self.skipped_msgkeys, staged(rc.chain_key, gap))
            },
            ..self
        }
    }

    /// The state after a message arrived; `fresh` is the key pair for what is sent
    /// from now on, should new chains start.
    pub open spec fn decrypt_state(
        self,
        env: EnvelopeView,
        m: CipherMessageView,
        fresh: KeyPairView,
    ) -> SessionStateView {
        self.located(m.ratchet_key, fresh).received(self.chain_for(m.ratchet_key), env, m)
    }

    /// The ratchet key pair is one.
    pub open spec fn valid(self) -> bool {
        self.send_chain.ratchet_key.valid()
    }

    /// The limits are kept, and no ratchet key has two chains.
    pub open spec fn within_limits(self) -> bool {
        &&& self.recv_chains.len() <= MAX_RECV_CHAINS
        &&& self.skipped_msgkeys.len() <= MAX_COUNTER_GAP
        &&& forall|i: int, j: int|
            #![trigger self.recv_chains[i], self.recv_chains[j]]
            0 <= i < j < self.recv_chains.len() ==> self.recv_chains[i].ratchet_key
                != self.recv_chains[j].ratchet_key
    }
}

/// The model of the prekey that is to be named in messages.
pub open spec fn pending_view(pending: Option<(PreKeyId, PublicKey)>) -> Option<(u16, Seq<u8>)> {
    match pending {
        None => None,
        Some((id, key)) => Some((id@, key@)),
    }
}

/// What the side that starts a session knows.
pub struct AliceParams<'r> {
    pub alice_ident: &'r IdentityKeyPair,
    pub alice_base: &'r KeyPair,
    pub bob: &'r PreKeyBundle,
}

/// What the other side knows.
pub struct BobParams<'r> {
    pub bob_ident: &'r IdentityKeyPair,
    pub bob_prekey: KeyPair,
    pub alice_ident: &'r IdentityKey,
    pub alice_base: &'r PublicKey,
}

/// Derives the keys of a handshake from three shared secrets.
fn derive_handshake(a: [u8; 32], b: [u8; 32], c: [u8; 32]) -> (r: DerivedSecrets)
    ensures
        r@ == handshake(a@, b@, c@),
{
    let mut buf: Vec<u8> = Vec::new();
    buf.extend_from_slice(a.as_slice());
    buf.extend_from_slice(b.as_slice());
    buf.extend_from_slice(c.as_slice());
    assert(buf@ =~= a@ + b@ + c@);
    DerivedSecrets::kdf_without_salt(Input(buf.as_slice()), Info("handshake".as_bytes()))
}

impl SessionState {
    /// The state of the side that starts a session, with a fresh ratchet key.
    pub fn init_as_alice(p: AliceParams) -> (r: SessionState)
        ensures
            exists|ratchet: KeyPairView|
                ratchet.valid() && r@ == #[trigger] SessionStateView::alice(
                    p.alice_ident@,
                    p.alice_base@,
                    p.bob@,
                    ratchet,
                ),
    {
        let ratchet = KeyPair::new();
        SessionState::init_as_alice_with(p, ratchet)
    }

    /// The state of the side that starts a session, with a given ratchet key.
    pub fn init_as_alice_with(p: AliceParams, send_ratchet: KeyPair) -> (r: SessionState)
        ensures
            r@ == SessionStateView::alice(
                p.alice_ident@,
                p.alice_base@,
                p.bob@,
                send_ratchet@,
            ),
    {
        let dsecs = derive_handshake(
            p.alice_ident.secret_key.shared_secret(&p.bob.public_key),
            p.alice_base.secret_key.shared_secret(&p.bob.identity_key.public_key),
            p.alice_base.secret_key.shared_secret(&p.bob.public_key),
        );
        // receiving chain
        let rootkey = RootKey::from_cipher_key(dsecs.cipher_key);
        let chainkey = ChainKey::from_mac_key(dsecs.mac_key, Counter::zero());
        let recv_chains = List::singleton(RecvChain::new(chainkey, p.bob.public_key));
        // sending chain
        let (rok, chk) = rootkey.dh_ratchet(&send_ratchet, &p.bob.public_key);
        let send_chain = SendChain::new(chk, send_ratchet);
        SessionState {
            recv_chains,
            send_chain,
            root_key: rok,
            prev_counter: Counter::zero(),
            skipped_msgkeys: List::nil(),
        }
    }

    /// The state of the side whose prekey was used.
    pub fn init_as_bob(p: BobParams) -> (r: SessionState)
        ensures
            r@ == SessionStateView::bob(
                p.bob_ident@,
                p.bob_prekey@,
                p.alice_ident@,
                p.alice_base@,
            ),
    {
        let dsecs = derive_handshake(
            p.bob_prekey.secret_key.shared_secret(&p.alice_ident.public_key),
            p.bob_ident.secret_key.shared_secret(p.alice_base),
            p.bob_prekey.secret_key.shared_secret(p.alice_base),
        );
        // sending chain
        let rootkey = RootKey::from_cipher_key(dsecs.cipher_key);
        let chainkey = ChainKey::from_mac_key(dsecs.mac_key, Counter::zero());
        let send_chain = SendChain::new(chainkey, p.bob_prekey);
        SessionState {
            recv_chains: List::nil(),
            send_chain,
            root_key: rootkey,
            prev_counter: Counter::zero(),
            skipped_msgkeys: List::nil(),
        }
    }

    /// Starts new chains for a new ratchet key of the peer, with a fresh ratchet
    /// key on this side.
    pub fn ratchet(&mut self, ratchet_key: PublicKey)
        ensures
            exists|fresh: KeyPairView|
                fresh.valid() && final(self)@ == #[trigger] old(self)@.ratcheted(
                    ratchet_key@,
                    fresh,
                ),
    {
        let new_ratchet = KeyPair::new();
        self.ratchet_with(ratchet_key, new_ratchet);
    }

    /// Starts new chains for a new ratchet key of the peer, with a given ratchet
    /// key on this side.
    pub fn ratchet_with(&mut self, ratchet_key: PublicKey, new_ratchet: KeyPair)
        ensures
            final(self)@ == old(self)@.ratcheted(ratchet_key@, new_ratchet@),
    {
        let (recv_root_key, recv_chain_key) = self.root_key.dh_ratchet(
            &self.send_chain.ratchet_key,
            &ratchet_key,
        );
        let (send_root_key, send_chain_key) = recv_root_key.dh_ratchet(&new_ratchet, &ratchet_key);
        self.start_chains(send_root_key, recv_chain_key, send_chain_key, ratchet_key, new_ratchet);
    }

    /// Puts new chains in place. The oldest receive chain gives way if there are
    /// as many as may be.
    pub fn start_chains(
        &mut self,
        root_key: RootKey,
        recv_chain_key: ChainKey,
        send_chain_key: ChainKey,
        ratchet_key: PublicKey,
        new_ratchet: KeyPair,
    )
        ensures
            final(self)@ == old(self)@.with_chains(
                root_key@,
                recv_chain_key@,
                send_chain_key@,
                ratchet_key@,
                new_ratchet@,
            ),
    {
        let recv_chain = RecvChain::new(recv_chain_key, ratchet_key);
        let send_chain = SendChain::new(send_chain_key, new_ratchet);
        self.root_key = root_key;
        self.prev_counter = self.send_chain.chain_key.idx;
        self.send_chain = send_chain;
        if self.recv_chains.len() == MAX_RECV_CHAINS {
            self.recv_chains.init();
        }
        self.recv_chains.cons(recv_chain);
    }

    /// Encrypts a text and moves the send chain on.
    pub fn encrypt(
        &mut self,
        ident: IdentityKey,
        pending: &Option<(PreKeyId, PublicKey)>,
        plain: &[u8],
    ) -> (r: Envelope)
        requires
            plain@.len() <= MAX_TEXT_LEN,
        ensures
            r@ == old(self)@.envelope(ident@, pending_view(*pending), plain@),
            final(self)@ == old(self)@.sent(),
    {
        let msgkeys = self.send_chain.chain_key.message_keys();
        let cmessage = CipherMessage::new(
            self.send_chain.ratchet_key.public_key,
            self.send_chain.chain_key.idx,
            self.prev_counter,
            msgkeys.encrypt(plain),
        );
        let message = match pending {
            None => Message::Plain(cmessage),
            Some(pp) => Message::Keyed(
                PreKeyMessage {
                    prekey_id: pp.0,
                    base_key: pp.1,
                    identity_key: ident,
                    message: cmessage,
                },
            ),
        };
        self.send_chain.chain_key = self.send_chain.chain_key.next();
        Envelope::new(&msgkeys.mac_key, message)
    }

    /// The chain under a ratchet key, if there is one.
    fn chain_under(&self, key: &PublicKey) -> (r: Option<RecvChain>)
        ensures
            r matches Some(c) ==> find_chain(self@.recv_chains, key@) == Some(c@),
            r is None ==> find_chain(self@.recv_chains, key@) is None,
    {
        let n: usize = self.recv_chains.len();
        let ghost chains = self@.recv_chains;
        let mut i: usize = 0;
        assert(chains.skip(0) =~= chains);
        while i < n
            invariant
                chains == self.recv_chains@,
                n == chains.len(),
                i <= n,
                find_chain(chains, key@) == find_chain(chains.skip(i as int), key@),
            decreases n - i,
        {
            let c: RecvChain = *self.recv_chains.at(i);
            proof {
                assert(chains.skip(i as int)[0] == chains[i as int]);
                assert(chains.skip(i as int).drop_first() =~= chains.skip(i + 1));
            }
            if c.ratchet_key == *key {
                return Some(c);
            }
            i = i + 1;
        }
        None
    }

    /// The chain under the ratchet key of a message. New chains start if there was
    /// none.
    pub fn find_recv_chain(&mut self, m: &CipherMessage) -> (r: RecvChain)
        ensures
            r@ == old(self)@.chain_for(m@.ratchet_key),
            exists|fresh: KeyPairView|
                old(self)@.draws(m@.ratchet_key, fresh) && final(self)@
                    == #[trigger] old(self)@.located(m@.ratchet_key, fresh),
    {
        match self.chain_under(m.ratchet_key()) {
            Some(rc) => {
                proof {
                    let any = self@.send_chain.ratchet_key;
                    assert(self@ == old(self)@.located(m@.ratchet_key, any));
                }
                rc
            },
            None => {
                let ghost before = self@;
                self.ratchet(*m.ratchet_key());
                proof {
                    let fresh = choose|fresh: KeyPairView|
                        fresh.valid() && self@ == #[trigger] before.ratcheted(
                            m@.ratchet_key,
                            fresh,
                        );
                    assert(self@ == before.located(m@.ratchet_key, fresh));
                }
                *self.recv_chains.at(0)
            },
        }
    }

    /// Decrypts a message.
    pub fn decrypt<E>(&mut self, env: &Envelope, m: &CipherMessage) -> (r: Result<
        Vec<u8>,
        DecryptError<E>,
    >)
        ensures
            text_of(r) == old(self)@.decrypt_result::<E>(env@, m@),
            exists|fresh: KeyPairView|
                old(self)@.draws(m@.ratchet_key, fresh) && final(self)@
                    == #[trigger] old(self)@.decrypt_state(env@, m@, fresh),
    {
        let rc = self.find_recv_chain(m);
        let ghost fresh = choose|fresh: KeyPairView|
            old(self)@.draws(m@.ratchet_key, fresh) && self@ == #[trigger] old(self)@.located(
                m@.ratchet_key,
                fresh,
            );
        let ghost located = self@;
        let r = self.receive(&rc, env, m);
        proof {
            assert(located.skipped_msgkeys == old(self)@.skipped_msgkeys);
            assert(self@ == old(self)@.decrypt_state(env@, m@, fresh));
        }
        r
    }

    /// Decrypts a message for a chain of this state.
    pub fn receive<E>(&mut self, rc: &RecvChain, env: &Envelope, m: &CipherMessage) -> (r: Result<
        Vec<u8>,
        DecryptError<E>,
    >)
        ensures
            final(self)@ == old(self)@.received(rc@, env@, m@),
            text_of(r) == chain_result::<E>(
                rc@.chain_key,
                old(self)@.skipped_msgkeys,
                env@,
                m@,
            ),
    {
        let idx: u32 = rc.chain_key.idx.value();
        let counter: u32 = m.counter().value();
        if counter < idx {
            self.try_skipped_message_keys(env, m)
        } else if counter > idx {
            let (chk, mk, mks) = match SessionState::stage_skipped_message_keys(m, rc) {
                Ok(staged) => staged,
                Err(e) => return Err(e),
            };
            if !env.verify(&mk.mac_key) {
                return Err(DecryptError::InvalidSignature);
            }
            let plain = mk.decrypt(m.cipher_text().as_slice());
            self.advance_recv_chain(&rc.ratchet_key, chk.next());
            self.commit_skipped_message_keys(mks);
            Ok(plain)
        } else {
            let mks = rc.chain_key.message_keys();
            assert(rc@.chain_key.advanced(0) == rc@.chain_key);
            if !env.verify(&mks.mac_key) {
                return Err(DecryptError::InvalidSignature);
            }
            let plain = mks.decrypt(m.cipher_text().as_slice());
            self.advance_recv_chain(&rc.ratchet_key, rc.chain_key.next());
            Ok(plain)
        }
    }

    /// Moves the chain under a ratchet key to a chain key.
    pub fn advance_recv_chain(&mut self, key: &PublicKey, chain_key: ChainKey)
        ensures
            final(self)@ == (SessionStateView {
                recv_chains: move_chain(old(self)@.recv_chains, key@, chain_key@),
                ..old(self)@
            }),
    {
        let ghost chains = self@.recv_chains;
        let ghost moved = move_chain(chains, key@, chain_key@);
        let n: usize = self.recv_chains.len();
        let mut i: usize = 0;
        while i < n
            invariant
                n == chains.len(),
                i <= n,
                moved == move_chain(chains, key@, chain_key@),
                self@ == (SessionStateView { recv_chains: self@.recv_chains, ..old(self)@ }),
                self@.recv_chains == moved.take(i as int) + chains.skip(i as int),
            decreases n - i,
        {
            let ghost before = self.recv_chains@;
            let c: RecvChain = *self.recv_chains.at(i);
            proof {
                assert(before[i as int] == chains[i as int]);
                assert(before.update(i as int, moved[i as int]) =~= moved.take(i + 1) + chains.skip(
                    i + 1,
                ));
            }
            if c.ratchet_key == *key {
                self.recv_chains.replace(i, RecvChain::new(chain_key, *key));
            } else {
                assert(before.update(i as int, chains[i as int]) =~= before);
            }
            i = i + 1;
        }
        assert(moved.take(n as int) + chains.skip(n as int) =~= moved);
    }

    /// Takes out the keys that were kept for a position.
    pub fn take_skipped<E>(&mut self, counter: Counter) -> (r: Result<MessageKeys, DecryptError<E>>)
        ensures
            final(self)@ == (SessionStateView {
                skipped_msgkeys: skipped_left(old(self)@.skipped_msgkeys, counter@),
                ..old(self)@
            }),
            match r {
                Ok(mk) => !too_old(old(self)@.skipped_msgkeys, counter@) && find_keys(
                    old(self)@.skipped_msgkeys,
                    counter@,
                ) == Some(mk@),
                Err(e) => if too_old(old(self)@.skipped_msgkeys, counter@) {
                    e == DecryptError::<E>::OutdatedMessage
                } else {
                    &&& find_keys(old(self)@.skipped_msgkeys, counter@) is None
                    &&& e == DecryptError::<E>::DuplicateMessage
                },
            },
    {
        let ghost skipped = self@.skipped_msgkeys;
        let too_old: bool = match self.skipped_msgkeys.hd() {
            Some(k) => k.counter.value() > counter.value(),
            None => false,
        };
        if too_old {
            return Err(DecryptError::OutdatedMessage);
        }
        let n: usize = self.skipped_msgkeys.len();
        let mut found: Option<MessageKeys> = None;
        let mut rest: List<MessageKeys> = List::nil();
        let mut i: usize = 0;
        proof {
            assert(skipped.skip(0) =~= skipped);
            assert(skipped.take(0) =~= Seq::<MessageKeysView>::empty());
            reveal(Seq::filter);
            assert(other_keys(skipped.take(0), counter@) =~= Seq::<MessageKeysView>::empty());
        }
        while i < n
            invariant
                skipped == self.skipped_msgkeys@,
                self@ == old(self)@,
                n == skipped.len(),
                i <= n,
                rest@ == other_keys(skipped.take(i as int), counter@),
                found matches Some(mk) ==> find_keys(skipped, counter@) == Some(mk@),
                found is None ==> find_keys(skipped, counter@) == find_keys(
                    skipped.skip(i as int),
                    counter@,
                ),
            decreases n - i,
        {
            let mk: MessageKeys = *self.skipped_msgkeys.at(i);
            proof {
                reveal(Seq::filter);
                assert(skipped.take(i + 1).drop_last() =~= skipped.take(i as int));
                assert(skipped.take(i + 1).last() == skipped[i as int]);
                assert(skipped.skip(i as int)[0] == skipped[i as int]);
                assert(skipped.skip(i as int).drop_first() =~= skipped.skip(i + 1));
            }
            if mk.counter.value() == counter.value() {
                if found.is_none() {
                    found = Some(mk);
                }
            } else {
                rest.snoc(mk);
            }
            i = i + 1;
        }
        assert(skipped.take(n as int) =~= skipped);
        self.skipped_msgkeys = rest;
        match found {
            Some(mk) => Ok(mk),
            None => Err(DecryptError::DuplicateMessage),
        }
    }

    /// Decrypts a message at a position that lies behind, with the keys that were
    /// kept for it.
    pub fn try_skipped_message_keys<E>(&mut self, env: &Envelope, mesg: &CipherMessage) -> (r:
        Result<Vec<u8>, DecryptError<E>>)
        ensures
            final(self)@ == (SessionStateView {
                skipped_msgkeys: skipped_left(old(self)@.skipped_msgkeys, mesg@.counter),
                ..old(self)@
            }),
            text_of(r) == skipped_result::<E>(old(self)@.skipped_msgkeys, env@, mesg@),
    {
        match self.take_skipped(mesg.counter()) {
            Ok(mk) => {
                if env.verify(&mk.mac_key) {
                    Ok(mk.decrypt(mesg.cipher_text().as_slice()))
                } else {
                    Err(DecryptError::InvalidMessage)
                }
            },
            Err(e) => Err(e),
        }
    }

    /// The chain key and the keys of a message that lies ahead on a chain, with the
    /// keys of the messages before it.
    pub fn stage_skipped_message_keys<E>(msg: &CipherMessage, chr: &RecvChain) -> (r: Result<
        (ChainKey, MessageKeys, List<MessageKeys>),
        DecryptError<E>,
    >)
        requires
            msg@.counter >= chr@.chain_key.idx,
        ensures
            ({
                let gap = (msg@.counter - chr@.chain_key.idx) as nat;
                match r {
                    Ok((chk, mk, mks)) => {
                        &&& gap <= MAX_COUNTER_GAP
                        &&& chk@ == chr@.chain_key.advanced(gap)
                        &&& mk@ == chk@.message_keys()
                        &&& mks@ == staged(chr@.chain_key, gap)
                    },
                    Err(e) => gap > MAX_COUNTER_GAP && e == DecryptError::<E>::TooDistantFuture,
                }
            }),
    {
        let num: usize = (msg.counter().value() - chr.chain_key.idx.value()) as usize;
        if num > MAX_COUNTER_GAP {
            return Err(DecryptError::TooDistantFuture);
        }
        let ghost start = chr@.chain_key;
        let mut buf: List<MessageKeys> = List::nil();
        let mut chk: ChainKey = chr.chain_key;
        let mut i: usize = 0;
        assert(buf@ =~= staged(start, 0));
        while i < num
            invariant
                i <= num,
                chk@ == start.advanced(i as nat),
                buf@ == staged(start, i as nat),
            decreases num - i,
        {
            buf.cons(chk.message_keys());
            chk = chk.next();
            assert(buf@ =~= staged(start, (i + 1) as nat));
            i = i + 1;
        }
        let mk = chk.message_keys();
        Ok((chk, mk, buf))
    }

    /// Keeps the keys of messages that were passed over.
    pub fn commit_skipped_message_keys(&mut self, mks: List<MessageKeys>)
        requires
            mks@.len() <= MAX_COUNTER_GAP,
        ensures
            final(self)@ == (SessionStateView {
                skipped_msgkeys: committed(old(self)@.skipped_msgkeys, mks@),
                ..old(self)@
            }),
    {
        let room: usize = MAX_COUNTER_GAP - mks.len();
        if self.skipped_msgkeys.len() > room {
            let excess: usize = self.skipped_msgkeys.len() - room;
            self.skipped_msgkeys.drop(excess);
        }
        self.skipped_msgkeys.append(mks);
    }
}

} // verus!
