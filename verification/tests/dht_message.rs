use lain::capabilities::Capabilities;
use lain::dht::message::{
    decode_message, encode_addr_reflect_request, encode_addr_reflect_response,
    encode_find_node_request, encode_find_node_response, encode_find_value_request,
    encode_find_value_response_not_found, encode_find_value_response_with_record, encode_message,
    encode_ping_request, encode_ping_response, encode_relay_needed_request,
    encode_relay_needed_response, encode_store_ack, encode_store_request, parse_endpoints,
    parse_nodes_from_payload, parse_record_from_payload, sign_with_seed,
};
use lain::dht::record::PeerRecord;
use lain::dht::routing::BucketEntry;
use lain::directory::{DhtErrorCode, DhtMsgType};
use lain::endpoint::{Endpoint, EndpointKind, SocketAddr};
use lain::peer::PeerId;

#[test]
fn test_encode_decode_message_roundtrip_ping() {
    let sender = PeerId([1u8; 32]);
    let msg_id = [2u8; 16];
    let encoded = encode_message(sender, msg_id, DhtMsgType::Ping, false, &[], None);
    let decoded = decode_message(&encoded).expect("should decode");
    assert_eq!(decoded.msg_type, DhtMsgType::Ping);
    assert!(!decoded.is_response);
    assert_eq!(decoded.sender_id, sender);
    assert_eq!(decoded.message_id, msg_id);
    assert!(decoded.payload.is_empty());
}

#[test]
fn test_encode_decode_message_roundtrip_find_node() {
    let sender = PeerId([3u8; 32]);
    let msg_id = [4u8; 16];
    let payload = vec![5u8; 32];
    let encoded = encode_message(sender, msg_id, DhtMsgType::FindNode, false, &payload, None);
    let decoded = decode_message(&encoded).expect("should decode");
    assert_eq!(decoded.msg_type, DhtMsgType::FindNode);
    assert_eq!(decoded.payload, payload);
}

#[test]
fn test_encode_decode_message_with_signature() {
    let sender = PeerId([6u8; 32]);
    let msg_id = [7u8; 16];
    let seed = [8u8; 32];
    let payload = b"hello".to_vec();
    let encoded = encode_message(sender, msg_id, DhtMsgType::FindValue, false, &payload, Some(&seed));
    let decoded = decode_message(&encoded).expect("should decode");
    assert_eq!(decoded.msg_type, DhtMsgType::FindValue);
    assert!(decoded.signature.is_some());
    assert!(!decoded.signature.unwrap().iter().all(|&b| b == 0));
}

#[test]
fn test_encode_decode_message_response_flag() {
    let sender = PeerId([9u8; 32]);
    let msg_id = [10u8; 16];
    let encoded = encode_message(sender, msg_id, DhtMsgType::Store, true, &[0u8], None);
    let decoded = decode_message(&encoded).expect("should decode");
    assert!(decoded.is_response);
}

#[test]
fn test_decode_message_too_short() {
    assert!(decode_message(&[0u8; 10]).is_none());
    assert!(decode_message(&[0u8; 52]).is_none());
}

#[test]
fn test_decode_message_wrong_version() {
    let mut buf = vec![0u8; 53];
    buf[0] = 0xFF;
    assert!(decode_message(&buf).is_none());
}

#[test]
fn test_encode_decode_store_payload_roundtrip() {
    let sender = PeerId([11u8; 32]);
    let key = [12u8; 32];
    let ttl = 600;
    let pubkey = [13u8; 32];
    let noise_pubkey = [14u8; 32];
    let endpoints = vec![
        Endpoint::new(SocketAddr::v4(192, 168, 1, 1, 8080), EndpointKind::LAN),
        Endpoint::new(SocketAddr::v4(10, 0, 0, 1, 443), EndpointKind::STUN),
    ];

    let raw =
        encode_store_request(sender, &key, ttl, &pubkey, &noise_pubkey, Capabilities::new(), &endpoints);
    let msg = decode_message(&raw).expect("should decode STORE");

    assert_eq!(msg.msg_type, DhtMsgType::Store);
    assert!(!msg.is_response);
    assert_eq!(&msg.payload[..32], &key);
    assert_eq!(
        u32::from_be_bytes([msg.payload[32], msg.payload[33], msg.payload[34], msg.payload[35]]),
        ttl
    );
    assert_eq!(&msg.payload[36..68], &pubkey);
    assert_eq!(&msg.payload[68..100], &noise_pubkey);
}

#[test]
fn test_parse_nodes_from_payload() {
    let mut payload = vec![0u8; 1 + 32 + 7];
    payload[0] = 1;
    payload[1..33].copy_from_slice(&[15u8; 32]);
    payload[33] = 0;
    payload[34..38].copy_from_slice(&[192, 168, 1, 1]);
    payload[38..40].copy_from_slice(&8080u16.to_be_bytes());

    let nodes = parse_nodes_from_payload(&payload).expect("should parse");
    assert_eq!(nodes.len(), 1);
    assert_eq!(nodes[0].0, PeerId([15u8; 32]));
    assert_eq!(nodes[0].1, SocketAddr::v4(192, 168, 1, 1, 8080));
}

#[test]
fn test_parse_nodes_from_empty_payload() {
    let nodes = parse_nodes_from_payload(&[]).expect("should handle empty");
    assert!(nodes.is_empty());
}

#[test]
fn test_peer_record_encode_decode_roundtrip() {
    let pubkey = [16u8; 32];
    let noise_pubkey = [17u8; 32];
    let ttl: u32 = 1200;
    let endpoints = vec![Endpoint::new(SocketAddr::v4(10, 0, 0, 1, 9000), EndpointKind::STUN)];

    let record = PeerRecord {
        pubkey,
        noise_pubkey,
        endpoints,
        capabilities: Capabilities::new(),
        ttl_remaining: ttl,
        expires_at: 0,
    };

    let payload =
        encode_find_value_response_with_record(PeerId([0u8; 32]), [0u8; 16], &record, None);

    let msg = decode_message(&payload).expect("should decode");
    assert!(msg.is_response);
    assert_eq!(msg.msg_type, DhtMsgType::FindValue);
    assert_eq!(msg.payload[0], 1);
    let parsed = parse_record_from_payload(&msg.payload[1..], 5).expect("should parse record");
    assert_eq!(parsed.pubkey, pubkey);
    assert_eq!(parsed.noise_pubkey, noise_pubkey);
    assert_eq!(parsed.ttl_remaining, ttl);
    assert_eq!(parsed.endpoints.len(), 1);
    assert_eq!(parsed.endpoints[0].addr, SocketAddr::v4(10, 0, 0, 1, 9000));
    assert_eq!(parsed.expires_at, 1_200_005);
}

#[test]
fn test_parse_record_from_payload_rejects_too_short() {
    assert!(parse_record_from_payload(&[0u8; 50], 0).is_none());
}

#[test]
fn message_exact_bytes() {
    let m = encode_message(PeerId([1u8; 32]), [2u8; 16], DhtMsgType::FindNode, true, &[9, 8], None);
    assert_eq!(m.len(), 53 + 2 + 64);
    assert_eq!(m[0], 1);
    assert_eq!(m[1..17], [2u8; 16]);
    assert_eq!(m[17], 0x83);
    assert_eq!(m[18..50], [1u8; 32]);
    assert_eq!(m[50..55], [0, 0, 2, 9, 8]);
    assert_eq!(m[55..], [0u8; 64]);
}

#[test]
fn signature_covers_the_body() {
    let seed = [3u8; 32];
    let m = encode_message(PeerId([1u8; 32]), [2u8; 16], DhtMsgType::Ping, false, &[7], Some(&seed));
    let body = &m[..m.len() - 64];
    assert_eq!(decode_message(&m).unwrap().signature.unwrap(), sign_with_seed(&seed, body));
    let key = ed25519_dalek::SigningKey::from_bytes(&seed).verifying_key();
    let sig = ed25519_dalek::Signature::from_bytes(&sign_with_seed(&seed, body));
    assert!(key.verify_strict(body, &sig).is_ok());
}

#[test]
fn message_without_signature_bytes() {
    let m = encode_ping_request(PeerId([1u8; 32]), [2u8; 16]);
    assert!(decode_message(&m[..m.len() - 1]).unwrap().signature.is_none());
    assert!(decode_message(&m).unwrap().signature.is_some());
    let mut longer = m.clone();
    longer[52] = 255;
    assert!(decode_message(&longer).is_none());
    let mut unknown = m;
    unknown[17] = 7;
    assert!(decode_message(&unknown).is_none());
}

fn node(id: u8) -> BucketEntry {
    BucketEntry {
        node_id: PeerId([id; 32]),
        address: SocketAddr::v4(127, 0, 0, id, 1000 + id as u16),
        last_seen: 0,
    }
}

#[test]
fn node_lists_roundtrip() {
    let nodes = vec![node(1), node(2), node(3)];
    let id = PeerId([9u8; 32]);
    for m in [
        encode_ping_response(id, [0u8; 16], &nodes, None),
        encode_find_node_response(id, [0u8; 16], &nodes, None),
        encode_relay_needed_response(id, [0u8; 16], &nodes, None),
    ] {
        let msg = decode_message(&m).unwrap();
        assert!(msg.is_response);
        let got = parse_nodes_from_payload(&msg.payload).unwrap();
        assert_eq!(got.len(), 3);
        for i in 0..3 {
            assert_eq!(got[i].0, nodes[i].node_id);
            assert_eq!(got[i].1, nodes[i].address);
        }
    }
    let msg = decode_message(&encode_find_value_response_not_found(id, [0u8; 16], &nodes, None)).unwrap();
    assert_eq!(msg.payload[0], 0);
    assert_eq!(parse_nodes_from_payload(&msg.payload[1..]).unwrap().len(), 3);
}

#[test]
fn node_list_holds_255() {
    let nodes: Vec<BucketEntry> = (0..300).map(|i| node((i % 250) as u8)).collect();
    let msg = decode_message(&encode_ping_response(PeerId([0u8; 32]), [0u8; 16], &nodes, None)).unwrap();
    assert_eq!(msg.payload[0], 255);
    assert_eq!(parse_nodes_from_payload(&msg.payload).unwrap().len(), 255);
}

#[test]
fn node_list_cut_off() {
    // An identifier without an address spoils the list; a missing identifier ends it.
    let mut payload = vec![2u8];
    payload.extend_from_slice(&[1u8; 32]);
    assert!(parse_nodes_from_payload(&payload).is_none());
    payload.extend_from_slice(&[0, 1, 2, 3, 4, 0, 80]);
    assert_eq!(parse_nodes_from_payload(&payload).unwrap().len(), 1);
    payload[33] = 9;
    assert!(parse_nodes_from_payload(&payload).is_none());
}

#[test]
fn endpoints_of_both_families() {
    let mut ip = [0u8; 16];
    ip[0] = 0x20;
    ip[15] = 1;
    let mut data = vec![1u8];
    data.extend_from_slice(&ip);
    data.extend_from_slice(&[0x1F, 0x90, 0, 0, 0, 0, 60]);
    data.extend_from_slice(&[0, 10, 0, 0, 1, 0, 80, 77, 0, 0, 1, 0]);
    let eps = parse_endpoints(&data, data.len());
    assert_eq!(eps.len(), 2);
    assert_eq!(eps[0].addr, SocketAddr::v6(ip, 8080));
    assert_eq!(eps[0].kind, EndpointKind::IPv6);
    assert_eq!(eps[0].ttl_seconds, 60);
    // A kind that nobody knows is taken for STUN.
    assert_eq!(eps[1].kind, EndpointKind::STUN);
    assert_eq!(eps[1].ttl_seconds, 256);
    assert_eq!(parse_endpoints(&data, 30).len(), 1);
    assert_eq!(parse_endpoints(&data, 0).len(), 0);
    assert_eq!(parse_endpoints(&data, 6).len(), 0);
}

#[test]
fn other_messages() {
    let id = PeerId([4u8; 32]);
    let m = decode_message(&encode_store_ack(id, [1u8; 16], None)).unwrap();
    assert_eq!((m.msg_type, m.is_response, m.payload), (DhtMsgType::Store, true, vec![0]));
    let m = decode_message(&encode_addr_reflect_request(id, [1u8; 16])).unwrap();
    assert_eq!((m.msg_type, m.is_response, m.payload.len()), (DhtMsgType::AddrReflect, false, 0));
    let a = SocketAddr::v4(1, 2, 3, 4, 258);
    let m = decode_message(&encode_addr_reflect_response(id, [1u8; 16], &a, None)).unwrap();
    assert_eq!(m.payload, vec![0, 1, 2, 3, 4, 1, 2]);
    let m = decode_message(&encode_relay_needed_request(id, [1u8; 16])).unwrap();
    assert_eq!((m.msg_type, m.is_response), (DhtMsgType::RelayNeeded, false));
    let m = decode_message(&encode_find_node_request(id, [1u8; 16], PeerId([5u8; 32]))).unwrap();
    assert_eq!((m.msg_type, m.payload), (DhtMsgType::FindNode, vec![5u8; 32]));
    let m = decode_message(&encode_find_value_request(id, [1u8; 16], &[6u8; 32])).unwrap();
    assert_eq!((m.msg_type, m.payload), (DhtMsgType::FindValue, vec![6u8; 32]));
}

#[test]
fn message_type_bytes() {
    for v in 0..=6u8 {
        let t = DhtMsgType::from_u8(v).unwrap();
        assert_eq!(t.code(), v);
        assert_eq!(DhtMsgType::from_u8(v | 0x80), Some(t));
    }
    assert!(DhtMsgType::from_u8(7).is_none());
    assert!(DhtMsgType::is_response(0x80));
    assert!(!DhtMsgType::is_response(0x7F));
    assert_eq!(DhtErrorCode::from_u8(3), Some(DhtErrorCode::MessageTooLarge));
    assert!(DhtErrorCode::from_u8(0).is_none());
    assert!(DhtErrorCode::from_u8(5).is_none());
}
