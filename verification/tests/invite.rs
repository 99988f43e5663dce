use lain::base62::{decode_base62, encode_base62};
use lain::capabilities::Capabilities;
use lain::daemon::{parse_invite, parse_invite_at};
use lain::endpoint::{Endpoint, EndpointKind, SocketAddr};
use lain::identity::{Identity, IdentityProvider};
use lain::invite::{DiscoveryError, InviteCode};
use lain::peer::PeerId;

fn make_invite() -> InviteCode {
    let peer_id = PeerId([1u8; 32]);
    let pk = [2u8; 32];
    let endpoint = Endpoint::new(SocketAddr::v4(192, 168, 1, 1, 8080), EndpointKind::LAN);
    let sign_fn = |_data: &[u8]| -> [u8; 64] { [3u8; 64] };
    InviteCode::new(peer_id, pk, pk, Capabilities::new(), vec![endpoint], 0, 0, 0, &sign_fn)
}

#[test]
fn test_invite_encode_decode_base62() {
    let invite = make_invite();
    let b62 = invite.to_base62();
    let decoded = InviteCode::from_base62(&b62).unwrap();
    assert_eq!(invite.peer_id, decoded.peer_id);
    assert_eq!(invite.ed25519_pk, decoded.ed25519_pk);
}

#[test]
fn test_invite_uri_roundtrip() {
    let invite = make_invite();
    let uri = invite.to_uri();
    assert!(uri.starts_with("lain://"));
    let decoded = InviteCode::from_uri(&uri).unwrap();
    assert_eq!(invite.peer_id, decoded.peer_id);
}

#[test]
fn test_invite_not_expired() {
    let invite = make_invite();
    assert!(!invite.is_expired());
}

#[test]
fn base62_refuses_what_is_no_digit() {
    for text in ["-", "abc!", "a b", "\u{e9}", "0\u{4e2d}"] {
        assert!(decode_base62(text).is_none());
    }
    assert_eq!(decode_base62(""), Some(vec![]));
    let mut data = vec![0u8; 70000];
    data.push(5);
    assert_eq!(decode_base62(&encode_base62(&data)), Some(data));
}

#[test]
fn test_base62_roundtrip() {
    let data = b"hello world!";
    let encoded = encode_base62(data);
    let decoded = decode_base62(&encoded).unwrap();
    assert_eq!(&decoded[0..data.len()], data);
}

#[test]
fn test_invite_multiple_endpoints() {
    let peer_id = PeerId([1u8; 32]);
    let pk = [2u8; 32];
    let sign_fn = |_data: &[u8]| -> [u8; 64] { [3u8; 64] };
    let mut e1 = Endpoint::new(SocketAddr::v4(10, 0, 0, 1, 8080), EndpointKind::LAN);
    e1.ttl_seconds = 300;
    let mut e2 = Endpoint::new(SocketAddr::v4(1, 2, 3, 4, 9999), EndpointKind::STUN);
    e2.ttl_seconds = 600;
    let endpoints = vec![e1, e2];
    let invite =
        InviteCode::new(peer_id, pk, pk, Capabilities::new(), endpoints, 0, 0, 0, &sign_fn);
    let b62 = invite.to_base62();
    let decoded = InviteCode::from_base62(&b62).unwrap();
    assert_eq!(decoded.endpoints.len(), 2);
    assert!(decoded.endpoints.iter().any(|e| e.addr.port() == 8080));
    assert!(decoded.endpoints.iter().any(|e| e.addr.port() == 9999));
}

#[test]
fn test_invite_full_roundtrip_all_fields() {
    let peer_id = PeerId([0xAAu8; 32]);
    let ed_pk = [0xBBu8; 32];
    let noise_pk = [0xCCu8; 32];
    let caps = Capabilities { bits: 0b1010 };
    let mut ep1 = Endpoint::new(SocketAddr::v4(10, 0, 0, 1, 8080), EndpointKind::LAN);
    ep1.ttl_seconds = 300;
    let mut ep2 = Endpoint::new(SocketAddr::v4(1, 2, 3, 4, 9999), EndpointKind::STUN);
    ep2.ttl_seconds = 600;
    let sign_fn = |data: &[u8]| -> [u8; 64] {
        let mut sig = [0u8; 64];
        sig[..32].copy_from_slice(&ed_pk);
        sig[32..].copy_from_slice(&data[..32]);
        sig
    };

    let invite = InviteCode::new(
        peer_id, ed_pk, noise_pk, caps, vec![ep1, ep2], 50000, 50250, 5, &sign_fn,
    );
    let b62 = invite.to_base62();
    let decoded = InviteCode::from_base62(&b62).unwrap();

    assert_eq!(decoded.peer_id, peer_id);
    assert_eq!(decoded.ed25519_pk, ed_pk);
    assert_eq!(decoded.noise_pk, noise_pk, "noise_pk should survive roundtrip");
    assert_eq!(decoded.capabilities.bits, caps.bits);
    assert_eq!(decoded.mappable_port_start, 50000);
    assert_eq!(decoded.mappable_port_end, 50250);
    assert_eq!(decoded.port_delta_hint, 5);
    assert_eq!(decoded.endpoints.len(), 2);
    assert_eq!(decoded.endpoints[0].addr, SocketAddr::v4(10, 0, 0, 1, 8080));
    assert_eq!(decoded.endpoints[0].kind, EndpointKind::LAN);
    assert_eq!(decoded.endpoints[1].addr, SocketAddr::v4(1, 2, 3, 4, 9999));
    assert_eq!(decoded.endpoints[1].kind, EndpointKind::STUN);
    assert_eq!(decoded.timestamp, invite.timestamp);
    assert_eq!(decoded.signature, invite.signature);

    let payload = decoded.encode_payload();
    let expected_sig = sign_fn(&payload);
    assert_eq!(decoded.signature, expected_sig);
}

#[test]
fn test_invite_expired_with_future_timestamp() {
    let mut invite = make_invite();
    invite.timestamp = std::time::SystemTime::now()
        .duration_since(std::time::UNIX_EPOCH)
        .map(|d| d.as_secs() + 3600)
        .unwrap_or(u64::MAX);
    assert!(invite.is_expired(), "an invite of the future should be considered expired");
}

#[test]
fn test_invite_from_base62_rejects_invalid() {
    assert!(InviteCode::from_base62("!!!").is_err());
    assert!(InviteCode::from_base62("").is_err());
    assert!(InviteCode::from_base62("abc").is_err());
}

#[test]
fn base62_exact_values() {
    assert_eq!(encode_base62(&[61]), "z");
    assert_eq!(encode_base62(&[62]), "10");
    assert_eq!(encode_base62(&[255]), "47");
    assert_eq!(decode_base62("47"), Some(vec![255]));
    assert_eq!(decode_base62("4-"), None);
}

#[test]
fn invite_ipv6_endpoint_survives() {
    let mut ip = [0u8; 16];
    ip[0] = 0x20;
    ip[1] = 0x01;
    ip[15] = 7;
    let ep = Endpoint::new(SocketAddr::v6(ip, 4433), EndpointKind::IPv6);
    let sign_fn = |_data: &[u8]| -> [u8; 64] { [9u8; 64] };
    let invite = InviteCode::new_at(
        PeerId([5u8; 32]), [6u8; 32], [7u8; 32], Capabilities::new(), vec![ep], 1, 2, 3, 77, &sign_fn,
    );
    let decoded = InviteCode::from_uri(&invite.to_uri()).unwrap();
    assert_eq!(decoded.endpoints[0].addr, SocketAddr::v6(ip, 4433));
    assert_eq!(decoded.endpoints[0].kind, EndpointKind::IPv6);
    assert_eq!(decoded.endpoints[0].ttl_seconds, 300);
    assert_eq!(decoded.timestamp, 77);
    assert_eq!(decoded.version, 1);
}

#[test]
fn invite_window() {
    let sign_fn = |_data: &[u8]| -> [u8; 64] { [9u8; 64] };
    let invite = InviteCode::new_at(
        PeerId([5u8; 32]), [6u8; 32], [7u8; 32], Capabilities::new(), vec![], 0, 0, 0, 1000, &sign_fn,
    );
    assert!(invite.is_expired_at(999));
    assert!(!invite.is_expired_at(1000));
    assert!(!invite.is_expired_at(2800));
    assert!(invite.is_expired_at(2801));
}

#[test]
fn invite_uri_needs_its_scheme() {
    let e = InviteCode::from_uri("http://abc").unwrap_err();
    assert_eq!(e.text(), "invite decode error: invalid URI prefix");
    assert_eq!(
        InviteCode::from_base62("a b").unwrap_err().text(),
        "invite decode error: invalid base62"
    );
    assert_eq!(DiscoveryError::InvalidSignature.text(), "invalid signature");
    assert_eq!(DiscoveryError::Expired.text(), "invite expired");
    assert_eq!(DiscoveryError::Encode("x".to_string()).text(), "invite encode error: x");
    assert_eq!(DiscoveryError::MdnsError("x".to_string()).text(), "mDNS error: x");
}

fn own_invite(identity: &Identity, timestamp: u64) -> InviteCode {
    let (_, noise) = identity.noise_keypair();
    let sign = |data: &[u8]| -> [u8; 64] { identity.sign(data) };
    InviteCode::new_at(
        identity.peer_id(),
        *identity.public_key(),
        noise,
        Capabilities::new(),
        vec![Endpoint::new(SocketAddr::v4(1, 2, 3, 4, 5), EndpointKind::STUN)],
        50000,
        50007,
        0,
        timestamp,
        &sign,
    )
}

#[test]
fn valid_invite_is_accepted() {
    let identity = Identity::from_seed([42u8; 32]);
    let invite = own_invite(&identity, 5000);
    let code = parse_invite_at(&invite.to_uri(), 6000).unwrap();
    assert_eq!(code.peer_id, identity.peer_id());
    assert_eq!(code.endpoints.len(), 1);
    assert!(code.verify(&|pk: &[u8; 32], data: &[u8], sig: &[u8; 64]| {
        pk == identity.public_key() && identity.sign(data) == *sig
    }));
}

#[test]
fn invalid_invites_are_refused() {
    let identity = Identity::from_seed([42u8; 32]);
    let uri = own_invite(&identity, 5000).to_uri();
    assert!(parse_invite_at(&uri, 4999).is_none());
    assert!(parse_invite_at(&uri, 6801).is_none());
    assert!(parse_invite_at(&uri[7..], 6000).is_none());
    let mut forged = own_invite(&identity, 5000);
    forged.endpoints[0].addr = SocketAddr::v4(6, 6, 6, 6, 6);
    assert!(parse_invite_at(&forged.to_uri(), 6000).is_none());
    let mut keyless = own_invite(&identity, 5000);
    keyless.noise_pk = [0u8; 32];
    keyless.signature = identity.sign(&keyless.encode_payload());
    assert!(parse_invite_at(&keyless.to_uri(), 6000).is_none());
    let mut other = own_invite(&identity, 5000);
    other.peer_id = PeerId([1u8; 32]);
    other.signature = identity.sign(&other.encode_payload());
    assert!(parse_invite_at(&other.to_uri(), 6000).is_none());
    assert!(parse_invite(&uri).is_none());
}

#[test]
fn the_first_endpoints_go_out() {
    let identity = Identity::from_seed([42u8; 32]);
    let mut invite = own_invite(&identity, 5000);
    invite.endpoints = (0..300u16)
        .map(|i| Endpoint::new(SocketAddr::v4(1, 2, 3, 4, i), EndpointKind::STUN))
        .collect();
    invite.signature = identity.sign(&invite.encode_payload());
    let code = parse_invite_at(&invite.to_uri(), 6000).unwrap();
    assert_eq!(code.timestamp, 5000);
    assert_eq!(code.signature, invite.signature);
    assert_eq!(code.endpoints.len(), 255);
    assert_eq!(code.endpoints[254].addr.port(), 254);
    assert_eq!(code.encode_payload(), invite.encode_payload());
}
