use ember_mesh::crypto::{decrypt, encrypt};
use ember_mesh::frame::SignedFrame;
use ember_mesh::identity::{verify, Identity};

#[test]
fn encrypt_then_decrypt() {
    let p = b"hello mesh".to_vec();
    let w = encrypt(&p);
    assert_eq!(w.len(), p.len() + 24 + 16);
    assert_ne!(&w[24..24 + p.len()], &p[..]);
    assert_eq!(decrypt(&w), Some(p));
    let empty = encrypt(&[]);
    assert_eq!(decrypt(&empty), Some(vec![]));
}

#[test]
fn encrypt_uses_fresh_nonces() {
    let a = encrypt(b"same");
    let b = encrypt(b"same");
    assert_ne!(a, b);
}

#[test]
fn decrypt_rejects_tampering() {
    let w = encrypt(b"payload");
    for i in 0..w.len() {
        let mut c = w.clone();
        c[i] ^= 0x01;
        assert_eq!(decrypt(&c), None, "bit flip at {}", i);
    }
    assert_eq!(decrypt(&w[..23]), None);
    assert_eq!(decrypt(&[]), None);
}

#[test]
fn sign_then_verify() {
    let id = Identity::from_secret([7u8; 32]);
    let m = b"message".to_vec();
    let s = id.sign(&m);
    assert_eq!(s.len(), 64);
    assert!(verify(&id.public, &m, &s));
    let mut m2 = m.clone();
    m2[0] ^= 1;
    assert!(!verify(&id.public, &m2, &s));
    let mut s2 = s.clone();
    s2[10] ^= 0x80;
    assert!(!verify(&id.public, &m, &s2));
    assert!(!verify(&id.public, &m, &s[..63]));
    let other = Identity::from_secret([8u8; 32]);
    assert!(!verify(&other.public, &m, &s));
}

#[test]
fn identity_node_id_is_key_prefix() {
    let id = Identity::from_secret([3u8; 32]);
    assert_eq!(&id.node_id()[..], &id.public[..8]);
    let expected = ed25519_dalek::SigningKey::from_bytes(&[3u8; 32]).verifying_key().to_bytes();
    assert_eq!(id.public, expected);
}

#[test]
fn signed_frame_verifies() {
    let id = Identity::from_secret([5u8; 32]);
    let mut f = SignedFrame::sign(id.node_id(), b"data".to_vec(), &id);
    assert!(f.verify());
    f.payload[0] ^= 1;
    assert!(!f.verify());
}
