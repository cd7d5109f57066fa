//! Exact values of the primitives and of what is built on them.
use proteus::derived::{CipherKey, DerivedSecrets, Info, Input, Mac, MacKey, Nonce, Salt};
use proteus::keys::{
    IdentityKey, IdentityKeyPair, KeyPair, PreKey, PreKeyBundle, PreKeyId, PublicKey, SecretKey,
};
use proteus::message::{Counter, Message};
use proteus::session::chain::{ChainKey, RootKey};
use proteus::session::error::DecryptError;
use proteus::session::state::{AliceParams, BobParams, SessionState};
use proteus::session::Session;

fn unhex(s: &str) -> Vec<u8> {
    (0..s.len() / 2).map(|i| u8::from_str_radix(&s[2 * i..2 * i + 2], 16).unwrap()).collect()
}

fn unhex32(s: &str) -> [u8; 32] {
    let mut r = [0u8; 32];
    r.copy_from_slice(&unhex(s));
    r
}

fn tohex(b: &[u8]) -> String {
    b.iter().map(|x| format!("{:02x}", x)).collect()
}

fn ascending() -> [u8; 32] {
    let mut r = [0u8; 32];
    for i in 0..32 {
        r[i] = i as u8;
    }
    r
}

fn pair(n: u8) -> KeyPair {
    KeyPair::from_secret_key(SecretKey { bytes: [n; 32] })
}

fn alice_identity() -> IdentityKeyPair {
    IdentityKeyPair::from_key_pair(pair(1))
}

fn bob_identity() -> IdentityKeyPair {
    IdentityKeyPair::from_key_pair(pair(4))
}

fn bob_prekey() -> PreKey {
    PreKey { key_id: PreKeyId::new(7), key_pair: pair(5) }
}

fn alice_session() -> Session {
    let bundle = PreKeyBundle::new(bob_identity().public_key, &bob_prekey());
    Session::init_from_prekey_with(&alice_identity(), bundle, pair(2), pair(3))
}

#[test]
fn shared_secret_value() {
    let k = SecretKey {
        bytes: unhex32("a546e36bf0527c9d3b16154b82465edd62144c0ac1fc5a18506a2244ba449ac4"),
    };
    let u = PublicKey {
        bytes: unhex32("e6db6867583030db3594c1a424b15f7c726624ec26b3353b10a903a6d0ab1c4c"),
    };
    assert_eq!(
        "c3da55379de9c6908e94ea4df28d084f32eccf03491c71f754b4075577a28552",
        tohex(&k.shared_secret(&u))
    );
}

#[test]
fn public_key_value() {
    let k = SecretKey { bytes: ascending() };
    assert_eq!(
        "8f40c5adb68f25624ae5b214ea767a6ec94d829d3d7b5e1ad1ba6f3e2138285f",
        k.public_key().fingerprint()
    );
    assert_eq!(
        "a4e09292b651c278b9772c569f5fa9bb13d906b46ab68c9df9dc2b4409f8a209",
        alice_identity().public_key.fingerprint()
    );
}

#[test]
fn shared_secrets_agree() {
    let a = KeyPair::new();
    let b = KeyPair::new();
    assert_eq!(
        a.secret_key.shared_secret(&b.public_key),
        b.secret_key.shared_secret(&a.public_key)
    );
}

#[test]
fn fresh_keys_differ() {
    let a = KeyPair::new();
    let b = KeyPair::new();
    assert_ne!(a.secret_key.bytes, b.secret_key.bytes);
    assert!(a.public_key != b.public_key);
    assert!(a.public_key == a.secret_key.public_key());
}

#[test]
fn mac_value() {
    let key = MacKey::new(ascending());
    let mac = key.sign(b"some message");
    assert_eq!(
        "506e6ae7cd5c241d9c27a625cfba4dce1be26f973de6da911357fc1f28f0efa5",
        tohex(mac.as_slice())
    );
    assert!(key.verify(&mac, b"some message"));
    assert!(!key.verify(&mac, b"same message"));
    assert!(!MacKey::new([0; 32]).verify(&mac, b"some message"));
    let mut bytes = mac.to_bytes();
    bytes[31] ^= 1;
    assert!(!key.verify(&Mac { bytes }, b"some message"));
}

#[test]
fn derived_secrets_value() {
    let d = DerivedSecrets::kdf(Input(b"input"), Salt(b"salt"), Info(b"info"));
    assert_eq!(
        "03b71afba4762882c6b8fe78cd35c97abf3d25fccfb7165a867ba25c026e35e4",
        tohex(d.cipher_key.as_slice())
    );
    assert_eq!(
        "16fe9e7fd68585d5ccc2cb0d9907bc665760f7d03e5abcbab3c43d93b9d3f09f",
        tohex(&d.mac_key.bytes)
    );
    let d = DerivedSecrets::kdf_without_salt(Input(b"input"), Info(b"info"));
    assert_eq!(
        "c2fe671194c4c383d409d9d6a329778dc591ebc27f8359a09f322da2510a086b",
        tohex(d.cipher_key.as_slice())
    );
    assert_eq!(
        "717faeff03c6550b231d537865bf29de7fea17a5164eceea483af7e70804921e",
        tohex(&d.mac_key.bytes)
    );
}

#[test]
fn cipher_text_value() {
    let key = CipherKey::new(ascending());
    let nonce = Nonce { bytes: [0, 1, 2, 3, 4, 5, 6, 7] };
    let text = b"A text that is longer than one block of the key stream, which has sixty-four bytes.";
    let cipher = key.encrypt(text, &nonce);
    assert_eq!(
        "b6b8d5ec89e1c61dea712bdb0d7897191039fac6642288fb8d6f8c39963fe3a358cb371053542061442aac646b2c6e4976a7cc3c8b717fd12e7e7c3f43c84c7b4b20f8f35ec84cb9784b31655ce8a712ecadbb",
        tohex(&cipher)
    );
    assert_eq!(text.to_vec(), key.decrypt(&cipher, &nonce));
    assert!(key.encrypt(b"", &nonce).is_empty());
}

#[test]
fn counter_values() {
    assert_eq!(0, Counter::zero().value());
    assert_eq!(1, Counter::zero().next().value());
    assert_eq!(0, Counter { value: u32::MAX }.next().value());
    assert_eq!([0x01, 0x02, 0x03, 0x04, 0, 0, 0, 0], Counter { value: 0x01020304 }.as_nonce().bytes);
}

#[test]
fn chain_key_values() {
    let ck = ChainKey::from_mac_key(MacKey::new([8; 32]), Counter { value: 41 });
    let mk = ck.message_keys();
    assert_eq!(
        "498072a710da52b00fd1241416dc4c7d8abd810036103c87159486e71057e049",
        tohex(mk.cipher_key.as_slice())
    );
    assert_eq!(
        "63f9496bf505114af9363762c9e991260cfc0436376c03ffc3324a5d41afde85",
        tohex(&mk.mac_key.bytes)
    );
    assert_eq!(41, mk.counter.value());
    let next = ck.next();
    assert_eq!(
        "c693541d1b4e3a9a82e72f837db5a05bd756844b627353961afe42bc404c531f",
        tohex(&next.key.bytes)
    );
    assert_eq!(42, next.idx.value());
    assert_eq!(b"a text".to_vec(), mk.decrypt(&mk.encrypt(b"a text")));
}

#[test]
fn both_sides_ratchet_alike() {
    let root = RootKey::from_cipher_key(CipherKey::new([9; 32]));
    let (a, b) = (pair(10), pair(11));
    let (root_a, chain_a) = root.dh_ratchet(&a, &b.public_key);
    let (root_b, chain_b) = root.dh_ratchet(&b, &a.public_key);
    assert_eq!(root_a.key.bytes, root_b.key.bytes);
    assert_eq!(chain_a.key.bytes, chain_b.key.bytes);
    assert_eq!(0, chain_a.idx.value());
    assert_ne!(root_a.key.bytes, root.key.bytes);
}

#[test]
fn envelope_values() {
    let mut alice = alice_session();
    assert_eq!(
        "cb1ad2f4281e9f4f639edc01133a3b7b054cfa0256d928b3e9d54f09f94f5dc0020007ce8d3ad1ccb633ec7b70c17814a5c76ecd029685050d344745ba05870e587d59a4e09292b651c278b9772c569f5fa9bb13d906b46ab68c9df9dc2b4409f8a2095dfedd3b6bd47f6fa28ee15d969d5bb0ea53774d488bdaf9df1c6e0124b3ef220000000000000000000000000000000ae468446e8e68685d293d",
        tohex(&alice.encrypt(b"Hello Bob!").encode())
    );
    assert_eq!(
        "da13e96bbdaa9ed7ceccfe14a7e67109fa86cc48be920aaa3e28498a157777dc020007ce8d3ad1ccb633ec7b70c17814a5c76ecd029685050d344745ba05870e587d59a4e09292b651c278b9772c569f5fa9bb13d906b46ab68c9df9dc2b4409f8a2095dfedd3b6bd47f6fa28ee15d969d5bb0ea53774d488bdaf9df1c6e0124b3ef220000000100000000000000000000000ce7f197b8a86e8eaf4cac359e",
        tohex(&alice.encrypt(b"Hello again!").encode())
    );
}

#[test]
fn session_value() {
    let mut alice = alice_session();
    alice.encrypt(b"Hello Bob!");
    alice.encrypt(b"Hello again!");
    assert_eq!(
        "010101010101010101010101010101010101010101010101010101010101010101ac01b2209e86354fb853237b5de0f4fab13c7fcbf433a61c019369617fecf10b010007ce8d3ad1ccb633ec7b70c17814a5c76ecd029685050d344745ba05870e587d5900000000000000010000000000000001fd0c4817d1f1481bff26acaf0afe9d47f0c035963378d3cafbcbc99cb815bb460000000050a61409b1ddd0325e9b16b700e719e9772c07000b1bd7786e907c653d20495d0c54d03d751b6308d31c4908e88ece150b484ae87c4535dda97f14e7f6b3873d000000020303030303030303030303030303030303030303030303030303030303030303cb6767159edb9e510476b21bcd0ea0b3d24c7e796792e53aae35025b52cc16c4000000000000000000000000",
        tohex(&alice.encode())
    );
}

#[test]
fn answer_value() {
    let mut bob = SessionState::init_as_bob(BobParams {
        bob_ident: &bob_identity(),
        bob_prekey: bob_prekey().key_pair,
        alice_ident: &alice_identity().public_key,
        alice_base: &pair(2).public_key,
    });
    bob.ratchet_with(pair(3).public_key, pair(6));
    assert_eq!(
        "6bf53ce1aef2a0fb7ebda95952ba0b20490807880298c60d08260490e7900e2f",
        tohex(bob.root_key.key.as_slice())
    );
    let answer = bob.encrypt(bob_identity().public_key, &None, b"Hello Alice!");
    assert_eq!(
        "f39b3eac34cea78d5558d1039ac0970188b2f3ce16e35a3022940d4f2574c08c01f5b2d6e60f9477e310c2982daaa6c9136c108a1777c5947e448fa37d681745570000000000000000000000000000000c40cb9c2408a21848e0ab2cc0",
        tohex(&answer.encode())
    );
}

#[test]
fn message_holds_what_was_sent() {
    let mut alice = alice_session();
    alice.encrypt(b"one");
    let env = alice.encrypt(b"two");
    match env.message() {
        Message::Keyed(m) => {
            assert_eq!(7, m.prekey_id.value());
            assert!(m.base_key == pair(2).public_key);
            assert!(m.identity_key == alice_identity().public_key);
            assert_eq!(1, m.message.counter().value());
            assert_eq!(0, m.message.prev_counter().value());
            assert!(*m.message.ratchet_key() == pair(3).public_key);
            assert_eq!(3, m.message.cipher_text().len());
            assert_ne!(b"two".to_vec(), *m.message.cipher_text());
        }
        Message::Plain(_) => panic!("no prekey was named"),
    }
}

#[test]
fn identities_of_a_session() {
    let alice = alice_session();
    assert!(*alice.local_identity() == alice_identity().public_key);
    assert!(*alice.remote_identity() == bob_identity().public_key);
    let other: IdentityKey = IdentityKeyPair::new().public_key;
    assert!(*alice.local_identity() != other);
}

#[test]
fn fresh_state_reaches_the_other_side() {
    let bundle = PreKeyBundle::new(bob_identity().public_key, &bob_prekey());
    let params = AliceParams {
        alice_ident: &alice_identity(),
        alice_base: &pair(2),
        bob: &bundle,
    };
    let mut alice = SessionState::init_as_alice(params);
    assert_eq!(1, alice.recv_chains.len());
    assert!(alice.recv_chains.at(0).ratchet_key == pair(5).public_key);
    let env = alice.encrypt(alice_identity().public_key, &None, b"Hello Bob!");
    let mut bob = SessionState::init_as_bob(BobParams {
        bob_ident: &bob_identity(),
        bob_prekey: bob_prekey().key_pair,
        alice_ident: &alice_identity().public_key,
        alice_base: &pair(2).public_key,
    });
    let text: Result<Vec<u8>, DecryptError<String>> = match env.message() {
        Message::Plain(m) => bob.decrypt(&env, m),
        Message::Keyed(_) => panic!("no prekey was to be named"),
    };
    assert_eq!(Ok(b"Hello Bob!".to_vec()), text);
}
