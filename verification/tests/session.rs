use proteus::keys::{gen_prekeys, IdentityKeyPair, PreKey, PreKeyBundle, PreKeyId};
use proteus::message::Envelope;
use proteus::session::error::DecryptError;
use proteus::session::{PreKeyStore, Session};

struct TestStore {
    prekeys: Vec<PreKey>,
}

impl TestStore {
    pub fn prekey_slice(&self) -> &[PreKey] {
        self.prekeys.as_slice()
    }
}

impl PreKeyStore<String> for TestStore {
    fn prekey(&self, id: PreKeyId) -> Result<Option<PreKey>, String> {
        Ok(self.prekeys.iter().find(|k| k.key_id == id).map(|k| k.clone()))
    }

    fn remove(&mut self, id: PreKeyId) -> Result<(), String> {
        self.prekeys
            .iter()
            .position(|k| k.key_id == id)
            .map(|ix| self.prekeys.swap_remove(ix));
        Ok(())
    }
}

fn store() -> TestStore {
    TestStore { prekeys: gen_prekeys(PreKeyId::new(0), 10) }
}

fn assert_decrypt(expected: &[u8], actual: Result<Vec<u8>, DecryptError<String>>) {
    match actual {
        Ok(b) => assert_eq!(expected, b.as_slice()),
        Err(e) => panic!("{}", e.as_str()),
    }
}

fn assert_init_from_message(
    i: &IdentityKeyPair,
    s: &mut TestStore,
    m: &Envelope,
    t: &[u8],
) -> Session {
    match Session::init_from_message(i, s, m) {
        Ok((s, b)) => {
            assert_eq!(t, b.as_slice());
            s
        }
        Err(e) => panic!("{}", e.as_str()),
    }
}

fn assert_prev_count(s: &Session, expected: u32) {
    assert_eq!(expected, s.session_states.hd().unwrap().prev_counter.value());
}

#[test]
fn encrypt_decrypt() {
    let alice_ident = IdentityKeyPair::new();
    let bob_ident = IdentityKeyPair::new();

    let mut alice_store = store();
    let mut bob_store = store();

    let bob_prekey = bob_store.prekey_slice().first().unwrap().clone();
    let bob_bundle = PreKeyBundle::new(bob_ident.public_key, &bob_prekey);

    let mut alice = Session::init_from_prekey(&alice_ident, bob_bundle);
    alice = Session::decode(&alice.encode()).unwrap();
    assert_eq!(1, alice.session_states.hd().unwrap().recv_chains.len());

    let hello_bob = alice.encrypt(b"Hello Bob!");
    let hello_bob_delayed = alice.encrypt(b"Hello delay!");

    assert_eq!(1, alice.session_states.len());
    assert_eq!(1, alice.session_states.hd().unwrap().recv_chains.len());

    let mut bob = assert_init_from_message(&bob_ident, &mut bob_store, &hello_bob, b"Hello Bob!");
    bob = Session::decode(&bob.encode()).unwrap();
    assert_eq!(1, bob.session_states.len());
    assert_eq!(1, bob.session_states.hd().unwrap().recv_chains.len());
    assert_eq!(
        bob.remote_identity.fingerprint(),
        alice.local_identity.public_key.fingerprint()
    );

    let hello_alice = bob.encrypt(b"Hello Alice!");

    // Alice
    assert_decrypt(b"Hello Alice!", alice.decrypt(&mut alice_store, &hello_alice));
    assert_eq!(2, alice.session_states.hd().unwrap().recv_chains.len());
    assert_eq!(
        alice.remote_identity.fingerprint(),
        bob.local_identity.public_key.fingerprint()
    );
    let ping_bob_1 = alice.encrypt(b"Ping1!");
    let ping_bob_2 = alice.encrypt(b"Ping2!");
    assert_prev_count(&alice, 2);

    // Bob
    assert_decrypt(b"Ping1!", bob.decrypt(&mut bob_store, &ping_bob_1));
    assert_eq!(2, bob.session_states.hd().unwrap().recv_chains.len());
    assert_decrypt(b"Ping2!", bob.decrypt(&mut bob_store, &ping_bob_2));
    assert_eq!(2, bob.session_states.hd().unwrap().recv_chains.len());
    let pong_alice = bob.encrypt(b"Pong!");
    assert_prev_count(&bob, 1);

    // Alice
    assert_decrypt(b"Pong!", alice.decrypt(&mut alice_store, &pong_alice));
    assert_eq!(3, alice.session_states.hd().unwrap().recv_chains.len());
    assert_prev_count(&alice, 2);

    // Bob (Delayed (prekey) message, decrypted with the "old" receive chain)
    assert_decrypt(b"Hello delay!", bob.decrypt(&mut bob_store, &hello_bob_delayed));
    assert_eq!(2, bob.session_states.hd().unwrap().recv_chains.len());
    assert_prev_count(&bob, 1);
}

#[test]
fn counter_mismatch() {
    let alice_ident = IdentityKeyPair::new();
    let bob_ident = IdentityKeyPair::new();

    let mut alice_store = store();
    let mut bob_store = store();

    let bob_prekey = bob_store.prekey_slice().first().unwrap().clone();
    let bob_bundle = PreKeyBundle::new(bob_ident.public_key, &bob_prekey);

    let mut alice = Session::init_from_prekey(&alice_ident, bob_bundle);
    let hello_bob = alice.encrypt(b"Hello Bob!");

    let mut bob = assert_init_from_message(&bob_ident, &mut bob_store, &hello_bob, b"Hello Bob!");

    let hello1 = bob.encrypt(b"Hello1");
    let hello2 = bob.encrypt(b"Hello2");
    let hello3 = bob.encrypt(b"Hello3");
    let hello4 = bob.encrypt(b"Hello4");
    let hello5 = bob.encrypt(b"Hello5");

    assert_decrypt(b"Hello2", alice.decrypt(&mut alice_store, &hello2));
    assert_eq!(1, alice.session_states.hd().unwrap().skipped_msgkeys.len());

    assert_decrypt(b"Hello1", alice.decrypt(&mut alice_store, &hello1));
    assert_eq!(0, alice.session_states.hd().unwrap().skipped_msgkeys.len());

    assert_decrypt(b"Hello3", alice.decrypt(&mut alice_store, &hello3));
    assert_eq!(0, alice.session_states.hd().unwrap().skipped_msgkeys.len());

    assert_decrypt(b"Hello5", alice.decrypt(&mut alice_store, &hello5));
    assert_eq!(1, alice.session_states.hd().unwrap().skipped_msgkeys.len());

    assert_decrypt(b"Hello4", alice.decrypt(&mut alice_store, &hello4));
    assert_eq!(0, alice.session_states.hd().unwrap().skipped_msgkeys.len());

    for m in vec![hello1, hello2, hello3, hello4, hello5].iter() {
        assert_eq!(
            Some(DecryptError::DuplicateMessage),
            alice.decrypt(&mut alice_store, m).err()
        );
    }
}

#[test]
fn multiple_prekey_msgs() {
    let alice_ident = IdentityKeyPair::new();
    let bob_ident = IdentityKeyPair::new();

    let mut bob_store = store();

    let bob_prekey = bob_store.prekey_slice().first().unwrap().clone();
    let bob_bundle = PreKeyBundle::new(bob_ident.public_key, &bob_prekey);

    let mut alice = Session::init_from_prekey(&alice_ident, bob_bundle);
    let hello_bob1 = alice.encrypt(b"Hello Bob1!");
    let hello_bob2 = alice.encrypt(b"Hello Bob2!");
    let hello_bob3 = alice.encrypt(b"Hello Bob3!");

    let mut bob = assert_init_from_message(&bob_ident, &mut bob_store, &hello_bob1, b"Hello Bob1!");
    assert_eq!(1, bob.session_states.len());
    assert_decrypt(b"Hello Bob2!", bob.decrypt(&mut bob_store, &hello_bob2));
    assert_eq!(1, bob.session_states.len());
    assert_decrypt(b"Hello Bob3!", bob.decrypt(&mut bob_store, &hello_bob3));
    assert_eq!(1, bob.session_states.len());
}

#[test]
fn simultaneous_prekey_msgs() {
    let alice_ident = IdentityKeyPair::new();
    let bob_ident = IdentityKeyPair::new();

    let mut alice_store = store();
    let mut bob_store = store();

    let bob_prekey = bob_store.prekey_slice().first().unwrap().clone();
    let bob_bundle = PreKeyBundle::new(bob_ident.public_key, &bob_prekey);

    let alice_prekey = alice_store.prekey_slice().first().unwrap().clone();
    let alice_bundle = PreKeyBundle::new(alice_ident.public_key, &alice_prekey);

    // Initial simultaneous prekey message
    let mut alice = Session::init_from_prekey(&alice_ident, bob_bundle);
    let hello_bob = alice.encrypt(b"Hello Bob!");

    let mut bob = Session::init_from_prekey(&bob_ident, alice_bundle);
    let hello_alice = bob.encrypt(b"Hello Alice!");

    assert_decrypt(b"Hello Bob!", bob.decrypt(&mut bob_store, &hello_bob));
    assert_eq!(2, bob.session_states.len());

    assert_decrypt(b"Hello Alice!", alice.decrypt(&mut alice_store, &hello_alice));
    assert_eq!(2, alice.session_states.len());

    // Non-simultaneous answer, which results in agreement of a session.
    let greet_bob = alice.encrypt(b"That was fast!");
    assert_decrypt(b"That was fast!", bob.decrypt(&mut bob_store, &greet_bob));

    let answer_alice = bob.encrypt(b":-)");
    assert_decrypt(b":-)", alice.decrypt(&mut alice_store, &answer_alice));
}

#[test]
fn simultaneous_msgs_repeated() {
    let alice_ident = IdentityKeyPair::new();
    let bob_ident = IdentityKeyPair::new();

    let mut alice_store = store();
    let mut bob_store = store();

    let bob_prekey = bob_store.prekey_slice().first().unwrap().clone();
    let bob_bundle = PreKeyBundle::new(bob_ident.public_key, &bob_prekey);

    let alice_prekey = alice_store.prekey_slice().first().unwrap().clone();
    let alice_bundle = PreKeyBundle::new(alice_ident.public_key, &alice_prekey);

    // Initial simultaneous prekey message
    let mut alice = Session::init_from_prekey(&alice_ident, bob_bundle);
    let hello_bob = alice.encrypt(b"Hello Bob!");

    let mut bob = Session::init_from_prekey(&bob_ident, alice_bundle);
    let hello_alice = bob.encrypt(b"Hello Alice!");

    assert_decrypt(b"Hello Bob!", bob.decrypt(&mut bob_store, &hello_bob));
    assert_decrypt(b"Hello Alice!", alice.decrypt(&mut alice_store, &hello_alice));

    // Second simultaneous message
    let echo_bob1 = alice.encrypt(b"Echo Bob1!");
    let echo_alice1 = bob.encrypt(b"Echo Alice1!");

    assert_decrypt(b"Echo Bob1!", bob.decrypt(&mut bob_store, &echo_bob1));
    assert_eq!(2, bob.session_states.len());

    assert_decrypt(b"Echo Alice1!", alice.decrypt(&mut alice_store, &echo_alice1));
    assert_eq!(2, alice.session_states.len());

    // Third simultaneous message
    let echo_bob2 = alice.encrypt(b"Echo Bob2!");
    let echo_alice2 = bob.encrypt(b"Echo Alice2!");

    assert_decrypt(b"Echo Bob2!", bob.decrypt(&mut bob_store, &echo_bob2));
    assert_eq!(2, bob.session_states.len());

    assert_decrypt(b"Echo Alice2!", alice.decrypt(&mut alice_store, &echo_alice2));
    assert_eq!(2, alice.session_states.len());

    // Non-simultaneous answer, which results in agreement of a session.
    let stop_bob = alice.encrypt(b"Stop it!");
    assert_decrypt(b"Stop it!", bob.decrypt(&mut bob_store, &stop_bob));

    let answer_alice = bob.encrypt(b"OK");
    assert_decrypt(b"OK", alice.decrypt(&mut alice_store, &answer_alice));
}

#[test]
fn enc_dec_session() {
    let alice_ident = IdentityKeyPair::new();
    let bob_ident = IdentityKeyPair::new();

    let bob_store = store();

    let bob_prekey = bob_store.prekey_slice().first().unwrap().clone();
    let bob_bundle = PreKeyBundle::new(bob_ident.public_key, &bob_prekey);

    let alice = Session::init_from_prekey(&alice_ident, bob_bundle);
    let bytes = alice.encode();

    match Session::decode(bytes.as_slice()) {
        None => panic!("Failed to decode session"),
        Some(s @ Session { .. }) => assert_eq!(bytes, s.encode()),
    };
}

#[test]
fn mass_communication() {
    let alice_ident = IdentityKeyPair::new();
    let bob_ident = IdentityKeyPair::new();

    let mut alice_store = store();
    let mut bob_store = store();

    let bob_prekey = bob_store.prekey_slice().first().unwrap().clone();
    let bob_bundle = PreKeyBundle::new(bob_ident.public_key, &bob_prekey);

    let mut alice = Session::init_from_prekey(&alice_ident, bob_bundle);
    let hello_bob = alice.encrypt(b"Hello Bob!");

    let mut bob = assert_init_from_message(&bob_ident, &mut bob_store, &hello_bob, b"Hello Bob!");

    let mut buffer = Vec::with_capacity(1000);
    for _ in 0..1000 {
        buffer.push(bob.encrypt(b"Hello Alice!").encode())
    }

    for msg in buffer.iter() {
        assert_decrypt(
            b"Hello Alice!",
            alice.decrypt(&mut alice_store, &Envelope::decode(msg).unwrap()),
        );
    }
}
