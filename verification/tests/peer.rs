use lain::capabilities::Capabilities;
use lain::identity::{Identity, IdentityProvider, StoredIdentity};
use lain::peer::PeerId;
use sha2::Digest;

#[test]
fn test_peer_id_to_hex() {
    let mut bytes = [0u8; 32];
    bytes[0] = 0xab;
    bytes[1] = 0xcd;
    let id = PeerId(bytes);
    assert!(id.to_hex().starts_with("abcd"));
}

#[test]
fn test_distance_symmetric() {
    let a = PeerId([1u8; 32]);
    let b = PeerId([2u8; 32]);
    assert_eq!(a.distance(&b), b.distance(&a));
}

#[test]
fn test_distance_self_zero() {
    let a = PeerId([42u8; 32]);
    assert_eq!(a.distance(&a), [0u8; 32]);
}

#[test]
fn test_bucket_index() {
    let local = PeerId([0u8; 32]);
    let mut far = [0u8; 32];
    far[0] = 0x80;
    assert_eq!(local.bucket_index(&PeerId(far)), 0);
    far[0] = 0x40;
    assert_eq!(local.bucket_index(&PeerId(far)), 1);
    far[0] = 1;
    assert_eq!(local.bucket_index(&PeerId(far)), 7);
    far = [0u8; 32];
    far[31] = 1;
    assert_eq!(local.bucket_index(&PeerId(far)), 255);
}

#[test]
fn bucket_of_itself_is_the_last() {
    let a = PeerId([7u8; 32]);
    assert_eq!(a.bucket_index(&a), 255);
}

#[test]
fn peer_id_hex_roundtrip() {
    let mut bytes = [0u8; 32];
    for i in 0..32 {
        bytes[i] = (i * 9 + 3) as u8;
    }
    let id = PeerId(bytes);
    let hex = id.to_hex();
    assert_eq!(hex.len(), 64);
    assert_eq!(PeerId::from_hex(&hex).unwrap(), id);
    assert_eq!(PeerId::from_hex(&hex.to_uppercase()).unwrap(), id);
    assert_eq!(id.short_hex(), &hex[..16]);
}

#[test]
fn peer_id_from_hex_errors() {
    assert_eq!(PeerId::from_hex("abc").unwrap_err(), "Odd number of digits");
    assert_eq!(PeerId::from_hex("ab").unwrap_err(), "PeerId must be 32 bytes");
    assert_eq!(
        PeerId::from_hex("a\n").unwrap_err(),
        "Invalid character '\\n' at position 1"
    );
    assert_eq!(
        PeerId::from_hex("abzz").unwrap_err(),
        "Invalid character 'z' at position 2"
    );
    assert_eq!(PeerId::from_hex("").unwrap_err(), "PeerId must be 32 bytes");
}

#[test]
fn peer_ids_are_ordered_as_numbers() {
    let a = PeerId([1u8; 32]);
    let b = PeerId([2u8; 32]);
    assert!(a.precedes(&b));
    assert!(!b.precedes(&a));
    assert!(!a.precedes(&a));
}

#[test]
fn distance_triangle() {
    let a = PeerId([0x11u8; 32]);
    let b = PeerId([0x37u8; 32]);
    let c = PeerId([0x5Au8; 32]);
    let ab = a.distance(&b)[0] as u32;
    let bc = b.distance(&c)[0] as u32;
    let ac = a.distance(&c)[0] as u32;
    assert!(ac <= ab + bc);
    assert_eq!(a.distance(&b), [0x26u8; 32]);
}

#[test]
fn capabilities_flags() {
    let mut c = Capabilities::new();
    assert_eq!(c, Capabilities::default());
    assert!(!c.has(Capabilities::RELAY_CAPABLE));
    c.set(Capabilities::RELAY_CAPABLE, true);
    c.set(Capabilities::IPV6_INBOUND, true);
    assert!(c.has(Capabilities::RELAY_CAPABLE));
    assert!(!c.has(Capabilities::WS_LISTENER));
    assert_eq!(c.bits, 0x05);
    c.set(Capabilities::RELAY_CAPABLE, false);
    assert_eq!(c.bits, 0x04);
    assert_eq!(c.with(Capabilities::WS_LISTENER).bits, 0x06);
}

#[test]
fn test_generate_identity() {
    let id = Identity::generate().unwrap();
    let pid = id.peer_id();
    assert_eq!(pid.0.len(), 32);
    let key = ed25519_dalek::SigningKey::from_bytes(&id.signing_seed());
    assert_eq!(*id.public_key(), key.verifying_key().to_bytes());
}

#[test]
fn test_sign_and_verify() {
    let id = Identity::generate().unwrap();
    let data = b"hello lain";
    let signature = id.sign(data);

    let vk = ed25519_dalek::VerifyingKey::from_bytes(id.public_key()).unwrap();
    let sig = ed25519_dalek::Signature::from_bytes(&signature);
    assert!(vk.verify_strict(data, &sig).is_ok());
}

#[test]
fn test_peer_id_deterministic() {
    let id = Identity::generate().unwrap();
    let computed = Identity::compute_peer_id(id.public_key());
    assert_eq!(id.peer_id(), computed);
}

#[test]
fn test_noise_keypair_conversion() {
    let id = Identity::generate().unwrap();
    let (secret, public) = id.noise_keypair();
    assert_eq!(secret.len(), 32);
    assert_eq!(public.len(), 32);
    assert!(secret.iter().any(|&b| b != 0));
    assert!(public.iter().any(|&b| b != 0));
}

#[test]
fn peer_id_is_the_digest_of_the_key() {
    // SHA-256 of 32 zero bytes.
    assert_eq!(
        PeerId::from_pubkey(&[0u8; 32]).to_hex(),
        "66687aadf862bd776c8fc18b8e9f8e20089714856ee233b3902a591d0d5f2925"
    );
}

#[test]
fn known_keys() {
    // The first test vector of RFC 8032.
    let seed = PeerId::from_hex(
        "9d61b19deffd5a60ba844af492ec2cc44449c5697b326919703bac031cae7f60",
    )
    .unwrap()
    .0;
    let id = Identity::from_seed(seed);
    assert_eq!(
        PeerId(*id.public_key()).to_hex(),
        "d75a980182b10ab7d54bfed3c964073a0ee172f3daa62325af021a68f707511a"
    );
    let sig = id.sign(b"");
    assert_eq!(sig[0], 0xe5);
    assert_eq!(sig[63], 0x0b);
}

#[test]
fn noise_key_is_derived_from_the_seed() {
    let id = Identity::from_seed([5u8; 32]);
    let mut data = b"lain-noise-x25519-v1".to_vec();
    data.extend_from_slice(&[5u8; 32]);
    let want: [u8; 32] = sha2::Sha256::digest(&data).into();
    let (secret, public) = id.noise_keypair();
    assert_eq!(secret, want);
    let pk = x25519_dalek::PublicKey::from(&x25519_dalek::StaticSecret::from(want));
    assert_eq!(public, pk.to_bytes());
}

#[test]
fn identity_storage() {
    let id = Identity::from_seed([9u8; 32]);
    let stored = id.to_stored();
    let back = Identity::from_stored(&stored).unwrap();
    assert_eq!(back.peer_id(), id.peer_id());
    assert_eq!(back.signing_seed(), [9u8; 32]);
    let broken = StoredIdentity { peer_id_bytes: [0u8; 32], ..stored };
    let e = Identity::from_stored(&broken).unwrap_err();
    assert_eq!(e.text(), "failed to deserialize identity: PeerID mismatch");
}
