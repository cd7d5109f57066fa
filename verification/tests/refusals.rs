//! What is refused, why, and what a refusal leaves as it is.
use proteus::keys::{
    gen_prekeys, IdentityKeyPair, PreKey, PreKeyBundle, PreKeyId, MAX_PREKEY_ID,
};
use proteus::message::{Counter, Envelope, Message};
use proteus::session::error::DecryptError;
use proteus::session::state::{MAX_COUNTER_GAP, MAX_RECV_CHAINS};
use proteus::session::{PreKeyStore, Session, Version, MAX_SESSION_STATES};
use std::cell::Cell;
use std::fmt;

#[derive(Default)]
struct Store {
    prekeys: Vec<PreKey>,
    fail_prekey: bool,
    fail_remove: bool,
}

impl PreKeyStore<String> for Store {
    fn prekey(&self, id: PreKeyId) -> Result<Option<PreKey>, String> {
        if self.fail_prekey {
            return Err("cannot read".to_string());
        }
        Ok(self.prekeys.iter().find(|k| k.key_id == id).map(|k| k.clone()))
    }

    fn remove(&mut self, id: PreKeyId) -> Result<(), String> {
        if self.fail_remove {
            return Err("cannot write".to_string());
        }
        self.prekeys.retain(|k| k.key_id != id);
        Ok(())
    }
}

struct Peer {
    ident: IdentityKeyPair,
    store: Store,
}

impl Peer {
    fn new() -> Peer {
        let store = Store { prekeys: gen_prekeys(PreKeyId::new(0), 10), ..Store::default() };
        Peer { ident: IdentityKeyPair::new(), store }
    }

    fn bundle(&self, i: usize) -> PreKeyBundle {
        PreKeyBundle::new(self.ident.public_key, &self.store.prekeys[i])
    }
}

/// Alice, Bob and the sessions between them after one text each way.
fn talking() -> (Peer, Session, Peer, Session) {
    let mut a = Peer::new();
    let mut b = Peer::new();
    let mut alice = Session::init_from_prekey(&a.ident, b.bundle(0));
    let hello = alice.encrypt(b"Hello Bob!");
    let (mut bob, text) = Session::init_from_message(&b.ident, &mut b.store, &hello).unwrap();
    assert_eq!(b"Hello Bob!".to_vec(), text);
    let hello = bob.encrypt(b"Hello Alice!");
    assert_eq!(Ok(b"Hello Alice!".to_vec()), alice.decrypt(&mut a.store, &hello));
    (a, alice, b, bob)
}

/// The envelope with one bit of its last byte turned.
fn tampered(env: &Envelope) -> Envelope {
    let mut bytes = env.encode();
    let last = bytes.len() - 1;
    bytes[last] ^= 1;
    Envelope::decode(&bytes).unwrap()
}

fn skipped(s: &Session) -> usize {
    s.session_states.hd().unwrap().skipped_msgkeys.len()
}

#[test]
fn plain_message_starts_no_session() {
    let (_, mut alice, mut b, _) = talking();
    let env = alice.encrypt(b"plain");
    let left = b.store.prekeys.len();
    assert_eq!(
        Some(DecryptError::InvalidMessage),
        Session::init_from_message(&b.ident, &mut b.store, &env).err()
    );
    assert_eq!(left, b.store.prekeys.len());
}

#[test]
fn other_identity() {
    let (_, _, mut b, mut bob) = talking();
    let eve = Peer::new();
    let env = Session::init_from_prekey(&eve.ident, b.bundle(0)).encrypt(b"Guess who");
    let before = bob.encode();
    let left = b.store.prekeys.len();
    assert_eq!(Err(DecryptError::RemoteIdentityChanged), bob.decrypt(&mut b.store, &env));
    assert_eq!(before, bob.encode());
    assert_eq!(left, b.store.prekeys.len());
}

#[test]
fn tampered_message() {
    let (_, mut alice, mut b, mut bob) = talking();
    let env = alice.encrypt(b"text");
    let before = bob.encode();
    assert_eq!(Err(DecryptError::InvalidSignature), bob.decrypt(&mut b.store, &tampered(&env)));
    assert_eq!(before, bob.encode());
    assert_eq!(Ok(b"text".to_vec()), bob.decrypt(&mut b.store, &env));
}

#[test]
fn tampered_message_ahead() {
    let (_, mut alice, mut b, mut bob) = talking();
    alice.encrypt(b"lost");
    let env = alice.encrypt(b"text");
    let before = bob.encode();
    assert_eq!(Err(DecryptError::InvalidSignature), bob.decrypt(&mut b.store, &tampered(&env)));
    assert_eq!(before, bob.encode());
}

#[test]
fn tampered_late_message() {
    let (_, mut alice, mut b, mut bob) = talking();
    let late = alice.encrypt(b"late");
    let env = alice.encrypt(b"text");
    assert_eq!(Ok(b"text".to_vec()), bob.decrypt(&mut b.store, &env));
    assert_eq!(Err(DecryptError::InvalidMessage), bob.decrypt(&mut b.store, &tampered(&late)));
    // the key is still there
    assert_eq!(1, skipped(&bob));
    assert_eq!(Ok(b"late".to_vec()), bob.decrypt(&mut b.store, &late));
    assert_eq!(0, skipped(&bob));
}

#[test]
fn message_twice() {
    let (_, mut alice, mut b, mut bob) = talking();
    let env = alice.encrypt(b"text");
    assert_eq!(Ok(b"text".to_vec()), bob.decrypt(&mut b.store, &env));
    let before = bob.encode();
    assert_eq!(Err(DecryptError::DuplicateMessage), bob.decrypt(&mut b.store, &env));
    assert_eq!(before, bob.encode());
}

#[test]
fn message_twice_with_a_key_of_another_chain() {
    let (mut a, mut alice, mut b, mut bob) = talking();
    alice.encrypt(b"lost");
    let env = alice.encrypt(b"one");
    assert_eq!(Ok(b"one".to_vec()), bob.decrypt(&mut b.store, &env));
    assert_eq!(1, skipped(&bob));
    // a new chain starts at the position for which a key of the old one is kept
    let env = bob.encrypt(b"turn");
    assert_eq!(Ok(b"turn".to_vec()), alice.decrypt(&mut a.store, &env));
    let env = alice.encrypt(b"two");
    assert_eq!(Ok(b"two".to_vec()), bob.decrypt(&mut b.store, &env));
    let before = bob.encode();
    assert_eq!(Err(DecryptError::InvalidMessage), bob.decrypt(&mut b.store, &env));
    assert_eq!(before, bob.encode());
}

#[test]
fn message_again_after_others() {
    let (mut a, mut alice, mut b, mut bob) = talking();
    let first = alice.encrypt(b"first");
    assert_eq!(Ok(b"first".to_vec()), bob.decrypt(&mut b.store, &first));
    for i in 0..3 {
        let env = alice.encrypt(b"ping");
        assert_eq!(Ok(b"ping".to_vec()), bob.decrypt(&mut b.store, &env));
        assert_eq!(Err(DecryptError::DuplicateMessage), bob.decrypt(&mut b.store, &first));
        let env = bob.encrypt(b"pong");
        assert_eq!(Ok(b"pong".to_vec()), alice.decrypt(&mut a.store, &env));
        assert_eq!(i + 2, bob.session_states.hd().unwrap().recv_chains.len());
    }
}

#[test]
fn chains_move_forward() {
    let (_, mut alice, mut b, mut bob) = talking();
    let late = alice.encrypt(b"late");
    let env = alice.encrypt(b"text");
    let position = |s: &Session, i: usize| {
        s.session_states.hd().unwrap().recv_chains.at(i).chain_key.idx.value()
    };
    assert_eq!(1, position(&bob, 0));
    // a new chain comes in front and moves behind the message
    assert_eq!(Ok(b"text".to_vec()), bob.decrypt(&mut b.store, &env));
    assert_eq!((2, 1), (position(&bob, 0), position(&bob, 1)));
    // neither a late message nor a refused one moves it
    assert_eq!(Ok(b"late".to_vec()), bob.decrypt(&mut b.store, &late));
    assert_eq!((2, 1), (position(&bob, 0), position(&bob, 1)));
    let env = alice.encrypt(b"more");
    assert_eq!(Err(DecryptError::InvalidSignature), bob.decrypt(&mut b.store, &tampered(&env)));
    assert_eq!((2, 1), (position(&bob, 0), position(&bob, 1)));
    assert_eq!(Ok(b"more".to_vec()), bob.decrypt(&mut b.store, &env));
    assert_eq!((3, 1), (position(&bob, 0), position(&bob, 1)));
}

#[test]
fn chain_after_the_last_position() {
    // behind the last position a chain counts from zero again
    let (_, mut alice, mut b, mut bob) = talking();
    let env = alice.encrypt(b"text");
    assert_eq!(Ok(b"text".to_vec()), bob.decrypt(&mut b.store, &env));
    let mut send = alice.session_states.remove(0);
    send.send_chain.chain_key.idx = Counter { value: u32::MAX };
    alice.session_states.cons(send);
    let mut receive = bob.session_states.remove(0);
    let mut chain = receive.recv_chains.remove(0);
    chain.chain_key.idx = Counter { value: u32::MAX };
    receive.recv_chains.cons(chain);
    bob.session_states.cons(receive);
    let env = alice.encrypt(b"last");
    assert_eq!(Ok(b"last".to_vec()), bob.decrypt(&mut b.store, &env));
    assert_eq!(Err(DecryptError::TooDistantFuture), bob.decrypt(&mut b.store, &env));
    let env = alice.encrypt(b"first again");
    assert_eq!(Ok(b"first again".to_vec()), bob.decrypt(&mut b.store, &env));
}

#[test]
fn late_messages() {
    let (_, mut alice, mut b, mut bob) = talking();
    let first = alice.encrypt(b"first");
    let second = alice.encrypt(b"second");
    let third = alice.encrypt(b"third");
    assert_eq!(Ok(b"third".to_vec()), bob.decrypt(&mut b.store, &third));
    assert_eq!(2, skipped(&bob));
    // the first of the kept keys is that of the second message
    assert_eq!(Err(DecryptError::OutdatedMessage), bob.decrypt(&mut b.store, &first));
    assert_eq!(Ok(b"second".to_vec()), bob.decrypt(&mut b.store, &second));
    assert_eq!(Ok(b"first".to_vec()), bob.decrypt(&mut b.store, &first));
    assert_eq!(0, skipped(&bob));
    assert_eq!(Err(DecryptError::DuplicateMessage), bob.decrypt(&mut b.store, &second));
}

#[test]
fn as_far_ahead_as_may_be() {
    let (_, mut alice, mut b, mut bob) = talking();
    for _ in 0..MAX_COUNTER_GAP {
        alice.encrypt(b"lost");
    }
    let env = alice.encrypt(b"here");
    assert_eq!(Ok(b"here".to_vec()), bob.decrypt(&mut b.store, &env));
    assert_eq!(MAX_COUNTER_GAP, skipped(&bob));
    // further keys take the place of those that were kept first
    for _ in 0..3 {
        alice.encrypt(b"lost");
    }
    let env = alice.encrypt(b"there");
    assert_eq!(Ok(b"there".to_vec()), bob.decrypt(&mut b.store, &env));
    assert_eq!(MAX_COUNTER_GAP, skipped(&bob));
    let keys = &bob.session_states.hd().unwrap().skipped_msgkeys;
    assert_eq!(996, keys.at(0).counter.value());
    assert_eq!(0, keys.at(996).counter.value());
    assert_eq!(1003, keys.at(997).counter.value());
    assert_eq!(1001, keys.at(999).counter.value());
}

#[test]
fn too_far_ahead() {
    let (_, mut alice, mut b, mut bob) = talking();
    for _ in 0..MAX_COUNTER_GAP + 1 {
        alice.encrypt(b"lost");
    }
    let env = alice.encrypt(b"here");
    let before = bob.encode();
    assert_eq!(Err(DecryptError::TooDistantFuture), bob.decrypt(&mut b.store, &env));
    assert_eq!(before, bob.encode());
}

#[test]
fn store_cannot_read() {
    let mut b = Peer::new();
    let env = Session::init_from_prekey(&IdentityKeyPair::new(), b.bundle(0)).encrypt(b"text");
    b.store.fail_prekey = true;
    assert_eq!(
        Some(DecryptError::PreKeyStoreError("cannot read".to_string())),
        Session::init_from_message(&b.ident, &mut b.store, &env).err()
    );
}

#[test]
fn store_cannot_write() {
    let a = Peer::new();
    let mut b = Peer::new();
    let mut alice = Session::init_from_prekey(&a.ident, b.bundle(0));
    let hello = alice.encrypt(b"Hello");
    let (mut bob, _) = Session::init_from_message(&b.ident, &mut b.store, &hello).unwrap();
    // a second session with another prekey, which cannot be removed
    let mut again = Session::init_from_prekey(&a.ident, b.bundle(0));
    let env = again.encrypt(b"Again");
    b.store.fail_remove = true;
    assert_eq!(
        Err(DecryptError::PreKeyStoreError("cannot write".to_string())),
        bob.decrypt(&mut b.store, &env)
    );
    // the state of the prekey is there all the same
    assert_eq!(2, bob.session_states.len());
}

#[test]
fn last_prekey_is_not_used_up() {
    let a = Peer::new();
    let mut b = Peer::new();
    b.store.prekeys = vec![PreKey::new(PreKeyId::new(MAX_PREKEY_ID))];
    for _ in 0..2 {
        let env = Session::init_from_prekey(&a.ident, b.bundle(0)).encrypt(b"text");
        assert!(Session::init_from_message(&b.ident, &mut b.store, &env).is_ok());
        assert_eq!(1, b.store.prekeys.len());
    }
    b.store.prekeys = gen_prekeys(PreKeyId::new(0), 1);
    let env = Session::init_from_prekey(&a.ident, b.bundle(0)).encrypt(b"text");
    assert!(Session::init_from_message(&b.ident, &mut b.store, &env).is_ok());
    assert_eq!(0, b.store.prekeys.len());
}

#[test]
fn prekey_is_named_until_an_answer() {
    let mut a = Peer::new();
    let mut b = Peer::new();
    let mut alice = Session::init_from_prekey(&a.ident, b.bundle(0));
    let one = alice.encrypt(b"one");
    let two = alice.encrypt(b"two");
    assert!(matches!(one.message(), Message::Keyed(_)));
    assert!(matches!(two.message(), Message::Keyed(_)));
    // the second arrives first
    let (mut bob, text) = Session::init_from_message(&b.ident, &mut b.store, &two).unwrap();
    assert_eq!(b"two".to_vec(), text);
    assert_eq!(Ok(b"one".to_vec()), bob.decrypt(&mut b.store, &one));
    let answer = bob.encrypt(b"three");
    assert!(matches!(answer.message(), Message::Plain(_)));
    assert_eq!(Ok(b"three".to_vec()), alice.decrypt(&mut a.store, &answer));
    assert!(alice.pending_prekey.is_none());
    assert!(matches!(alice.encrypt(b"four").message(), Message::Plain(_)));
}

#[test]
fn older_state_comes_to_the_front() {
    let (mut a, mut alice, mut b, mut bob) = talking();
    // a new session of the same peer takes the first place
    let mut again = Session::init_from_prekey(&a.ident, b.bundle(0));
    let env = again.encrypt(b"new");
    assert_eq!(Ok(b"new".to_vec()), bob.decrypt(&mut b.store, &env));
    assert_eq!(2, bob.session_states.len());
    let front = bob.session_states.hd().unwrap().root_key.key.bytes;
    // a text of the old session brings its state back
    let env = alice.encrypt(b"old");
    assert_eq!(Ok(b"old".to_vec()), bob.decrypt(&mut b.store, &env));
    assert_eq!(2, bob.session_states.len());
    assert_eq!(front, bob.session_states.at(1).root_key.key.bytes);
    let env = bob.encrypt(b"answer");
    assert_eq!(Ok(b"answer".to_vec()), alice.decrypt(&mut a.store, &env));
}

#[test]
fn no_more_receive_chains_than_may_be() {
    let (mut a, mut alice, mut b, mut bob) = talking();
    for i in 0..2 * MAX_RECV_CHAINS {
        let text = format!("ping {}", i).into_bytes();
        let env = alice.encrypt(&text);
        assert_eq!(Ok(text), bob.decrypt(&mut b.store, &env));
        let text = format!("pong {}", i).into_bytes();
        let env = bob.encrypt(&text);
        assert_eq!(Ok(text), alice.decrypt(&mut a.store, &env));
        assert!(alice.session_states.hd().unwrap().recv_chains.len() <= MAX_RECV_CHAINS);
        assert!(bob.session_states.hd().unwrap().recv_chains.len() <= MAX_RECV_CHAINS);
    }
    assert_eq!(MAX_RECV_CHAINS, alice.session_states.hd().unwrap().recv_chains.len());
}

#[test]
fn no_more_states_than_may_be() {
    let a = Peer::new();
    let mut b = Peer::new();
    b.store.prekeys = vec![PreKey::new(PreKeyId::new(MAX_PREKEY_ID))];
    let mut bob = Session::init_from_prekey(&b.ident, {
        let prekey = PreKey::new(PreKeyId::new(1));
        PreKeyBundle::new(a.ident.public_key, &prekey)
    });
    for i in 0..MAX_SESSION_STATES + 2 {
        let env = Session::init_from_prekey(&a.ident, b.bundle(0)).encrypt(b"text");
        assert_eq!(Ok(b"text".to_vec()), bob.decrypt(&mut b.store, &env));
        assert_eq!(std::cmp::min(i + 2, MAX_SESSION_STATES), bob.session_states.len());
    }
}

#[test]
fn prekey_numbers_pass_over_the_last() {
    let keys = gen_prekeys(PreKeyId::new(65533), 4);
    let ids: Vec<u16> = keys.iter().map(|k| k.key_id.value()).collect();
    assert_eq!(vec![65533, 65534, 0, 1], ids);
    assert!(gen_prekeys(PreKeyId::new(5), 0).is_empty());
}

#[test]
fn envelope_is_bound_to_its_message() {
    let (_, mut alice, _, _) = talking();
    let one = alice.encrypt(b"one");
    let two = alice.encrypt(b"two");
    let swapped = Envelope { mac: one.mac, message: two.message };
    let key = alice.session_states.hd().unwrap().send_chain.chain_key.message_keys().mac_key;
    assert!(!swapped.verify(&key));
    let sealed = Envelope::new(&key, swapped.message);
    assert!(sealed.verify(&key));
}

#[test]
fn error_texts() {
    let texts = vec![
        (DecryptError::RemoteIdentityChanged, "RemoteIdentityChanged"),
        (DecryptError::InvalidSignature, "InvalidSignature"),
        (DecryptError::InvalidMessage, "InvalidMessage"),
        (DecryptError::DuplicateMessage, "DuplicateMessage"),
        (DecryptError::TooDistantFuture, "TooDistantFuture"),
        (DecryptError::OutdatedMessage, "OutdatedMessage"),
    ];
    for (e, name) in texts.iter() {
        let e: &DecryptError<String> = e;
        assert_eq!(*name, e.as_str());
        assert_eq!(*name, e.description());
        assert_eq!(name.to_string(), e.fmt("unused"));
        assert_eq!(name.to_string(), format!("{:?}", e));
        assert_eq!(None, e.cause());
    }
    let e = DecryptError::from_error("disk full".to_string());
    assert_eq!("PreKeyStoreError", e.as_str());
    assert_eq!("PrekeyStoreError: disk full".to_string(), e.fmt("disk full"));
    assert_eq!("PrekeyStoreError: \"disk full\"".to_string(), format!("{:?}", e));
    assert_eq!(Some(&"disk full".to_string()), e.cause());
    assert_eq!(DecryptError::PreKeyStoreError("disk full".to_string()), e);
}

#[test]
fn session_starts_with_the_first_version() {
    let (_, alice, _, bob) = talking();
    assert_eq!(Version::V1, alice.version);
    assert_eq!(Version::V1, bob.version);
    assert_eq!(Counter::zero(), bob.session_states.hd().unwrap().prev_counter);
}

struct Unwritable;

impl fmt::Debug for Unwritable {
    fn fmt(&self, _: &mut fmt::Formatter) -> fmt::Result {
        Err(fmt::Error)
    }
}

/// Writes an error and notes how that went.
struct Probe {
    error: DecryptError<Unwritable>,
    outcome: Cell<Option<fmt::Result>>,
}

impl fmt::Debug for Probe {
    fn fmt(&self, f: &mut fmt::Formatter) -> fmt::Result {
        self.outcome.set(Some(fmt::Debug::fmt(&self.error, f)));
        Ok(())
    }
}

#[test]
fn error_text_that_cannot_be_written() {
    let probe = Probe { error: DecryptError::from_error(Unwritable), outcome: Cell::new(None) };
    // the prefix is written before the store's error fails to be
    assert_eq!("PrekeyStoreError: ".to_string(), format!("{:?}", probe));
    assert_eq!(Some(Err(fmt::Error)), probe.outcome.get());
    let probe = Probe { error: DecryptError::OutdatedMessage, outcome: Cell::new(None) };
    assert_eq!("OutdatedMessage".to_string(), format!("{:?}", probe));
    assert_eq!(Some(Ok(())), probe.outcome.get());
}

#[test]
fn session_is_never_empty() {
    let (_, mut alice, mut b, mut bob) = talking();
    let used = |s: &Session| (1..=MAX_SESSION_STATES).contains(&s.session_states.len());
    assert!(used(&alice) && used(&bob));
    let env = alice.encrypt(b"text");
    assert!(used(&alice));
    assert!(bob.decrypt(&mut b.store, &tampered(&env)).is_err());
    assert!(used(&bob));
    assert!(bob.decrypt(&mut b.store, &env).is_ok());
    assert!(used(&bob));
    assert!(bob.decrypt(&mut b.store, &env).is_err());
    assert!(used(&bob));
    assert!(used(&Session::decode(&bob.encode()).unwrap()));
}
