use proteus::binary::{
    dec_envelope, dec_identity_key, dec_identity_keypair, dec_prekey, dec_prekey_bundle,
    dec_secret_key, dec_session, enc_envelope, enc_identity_key, enc_identity_keypair, enc_prekey,
    enc_prekey_bundle, enc_secret_key, enc_session,
};
use proteus::keys::{IdentityKeyPair, PreKey, PreKeyBundle, PreKeyId, MAX_PREKEY_ID};
use proteus::message::Envelope;
use proteus::session::Session;

fn session() -> Session {
    let bob = IdentityKeyPair::new();
    let bundle = PreKeyBundle::new(bob.public_key, &PreKey::new(PreKeyId::new(3)));
    Session::init_from_prekey(&IdentityKeyPair::new(), bundle)
}

#[test]
fn session_bytes_round_trip() {
    let mut s = session();
    s.encrypt(b"something");
    let bytes = s.encode();
    let mut t = Session::decode(&bytes).unwrap();
    assert_eq!(bytes, t.encode());
    // from here on both go the same way
    assert_eq!(s.encrypt(b"more").encode(), t.encrypt(b"more").encode());
}

#[test]
fn envelope_bytes_round_trip() {
    let env = session().encrypt(b"something");
    let bytes = env.encode();
    assert_eq!(bytes, Envelope::decode(&bytes).unwrap().encode());
}

#[test]
fn shortened_bytes_are_refused() {
    let mut s = session();
    let env = s.encrypt(b"something").encode();
    for n in 0..env.len() {
        assert!(Envelope::decode(&env[..n]).is_none());
    }
    let bytes = s.encode();
    for n in 0..bytes.len() {
        assert!(Session::decode(&bytes[..n]).is_none());
    }
}

#[test]
fn trailing_bytes_are_refused() {
    let mut s = session();
    let mut env = s.encrypt(b"something").encode();
    env.push(0);
    assert!(Envelope::decode(&env).is_none());
    let mut bytes = s.encode();
    bytes.push(0);
    assert!(Session::decode(&bytes).is_none());
}

#[test]
fn unknown_tags_are_refused() {
    let mut s = session();
    // behind the 32 bytes of the code stands the tag of the message
    let mut env = s.encrypt(b"something").encode();
    env[32] = 3;
    assert!(Envelope::decode(&env).is_none());
    let mut bytes = s.encode();
    bytes[0] = 2;
    assert!(Session::decode(&bytes).is_none());
}

#[test]
fn endless_lists_are_refused() {
    // the number of states stands behind version, two keys and the pending prekey
    let mut bytes = session().encode();
    let at = 1 + 32 + 32 + 1 + 2 + 32;
    assert_eq!([0, 0, 0, 0, 0, 0, 0, 1], bytes[at..at + 8]);
    for i in 0..8 {
        bytes[at + i] = 0xFF;
    }
    assert!(Session::decode(&bytes).is_none());
}

#[test]
fn values_follow_one_another() {
    let ident = IdentityKeyPair::new();
    let prekey = PreKey::new(PreKeyId::new(MAX_PREKEY_ID));
    let bundle = PreKeyBundle::new(ident.public_key, &prekey);
    let mut s = session();
    let env = s.encrypt(b"something");

    let mut out = Vec::new();
    enc_secret_key(&ident.secret_key, &mut out);
    enc_identity_key(&ident.public_key, &mut out);
    enc_identity_keypair(&ident, &mut out);
    enc_prekey(&prekey, &mut out);
    enc_prekey_bundle(&bundle, &mut out);
    enc_envelope(&env, &mut out);
    enc_session(&s, &mut out);

    let (a, n) = dec_secret_key(&out, 0).unwrap();
    assert_eq!(32, n);
    assert_eq!(ident.secret_key.bytes, a.bytes);
    let (b, n) = dec_identity_key(&out, n).unwrap();
    assert_eq!(64, n);
    assert!(b == ident.public_key);
    let (c, n) = dec_identity_keypair(&out, n).unwrap();
    assert_eq!(96, n);
    assert_eq!(ident.secret_key.bytes, c.secret_key.bytes);
    assert!(c.public_key == ident.public_key);
    let (d, n) = dec_prekey(&out, n).unwrap();
    assert_eq!(130, n);
    assert_eq!(MAX_PREKEY_ID, d.key_id.value());
    assert!(d.key_pair.public_key == prekey.key_pair.public_key);
    let (e, n) = dec_prekey_bundle(&out, n).unwrap();
    assert_eq!(196, n);
    assert!(e.public_key == bundle.public_key && e.identity_key == ident.public_key);
    let (f, n) = dec_envelope(&out, n).unwrap();
    assert_eq!(env.encode(), f.encode());
    let (g, n) = dec_session(&out, n).unwrap();
    assert_eq!(out.len(), n);
    assert_eq!(s.encode(), g.encode());
    assert!(dec_secret_key(&out, out.len() - 31).is_none());
    assert!(dec_session(&out, n).is_none());
}
