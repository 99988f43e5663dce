use lain::capabilities::Capabilities;
use lain::dht::error::DhtError;
use lain::dht::message::{
    decode_message, encode_find_node_request, encode_find_value_request, encode_ping_request,
    encode_ping_request_signed, encode_store_request, encode_store_request_signed,
};
use lain::dht::node::{BootstrapStep, DhtConfig, DhtHandle, Lookup, Outgoing, ReadRoute};
use lain::directory::DhtMsgType;
use lain::endpoint::{Endpoint, EndpointKind, SocketAddr};
use lain::identity::{Identity, IdentityProvider};
use lain::peer::PeerId;

const NOW: u64 = 1_000_000;

fn make_id(seed: u8) -> PeerId {
    PeerId([seed; 32])
}

fn node(seed: u8) -> DhtHandle {
    DhtHandle::new(make_id(seed), DhtConfig::default())
}

fn addr(seed: u8) -> SocketAddr {
    SocketAddr::v4(127, 0, 0, 1, 1000 + seed as u16)
}

/// Hands everything that `from` has to say to `to`, and the answers back.
fn deliver(data: &[u8], from: &mut DhtHandle, from_addr: SocketAddr, to: &mut DhtHandle, to_addr: SocketAddr) {
    let out = to.handle_incoming(data, from_addr, NOW).unwrap();
    for m in out.outgoing {
        if m.to == from_addr {
            let _ = from.handle_incoming(&m.data, to_addr, NOW);
        }
    }
}

fn dummy() -> (Identity, [u8; 32], PeerId, [u8; 32]) {
    let id = Identity::generate().ok().unwrap();
    let pk = *id.public_key();
    let peer = id.peer_id();
    let (_, np) = id.noise_keypair();
    (id, pk, peer, np)
}

#[test]
fn test_ping_request_populates_routing_table() {
    let mut a = node(1);
    let mut b = node(2);
    let ping = encode_ping_request(a.peer_id(), [0u8; 16]);
    deliver(&ping, &mut a, addr(1), &mut b, addr(2));
    assert!(b.routing_table_size() >= 1);
}

#[test]
fn test_ping_response_populates_routing_table() {
    let mut a = node(3);
    let mut b = node(4);
    let ping = encode_ping_request(a.peer_id(), [1u8; 16]);
    deliver(&ping, &mut a, addr(3), &mut b, addr(4));
    assert!(a.routing_table_size() >= 1);
    assert!(b.routing_table_size() >= 1);
}

#[test]
fn test_find_node_request_responds_closest() {
    let mut a = node(5);
    let mut b = node(6);
    let req = encode_find_node_request(b.peer_id(), [2u8; 16], make_id(7));
    deliver(&req, &mut b, addr(6), &mut a, addr(5));
    assert!(a.routing_table_size() >= 1);
}

#[test]
fn test_store_and_retrieve_record() {
    let mut a = node(8);
    let mut b = node(9);
    let ping = encode_ping_request(b.peer_id(), [3u8; 16]);
    deliver(&ping, &mut b, addr(9), &mut a, addr(8));
    let (_, pk, peer, np) = dummy();
    let ep = Endpoint::new(SocketAddr::v4(10, 0, 0, 10, 9000), EndpointKind::STUN);
    let store =
        encode_store_request(b.peer_id(), &peer.0, 600, &pk, &np, Capabilities::new(), &[ep]);
    deliver(&store, &mut b, addr(9), &mut a, addr(8));
    let rec = a.get_peer_record(&peer, NOW).expect("A should store dummy peer record");
    assert_eq!(rec.pubkey, pk);
    assert_eq!(rec.noise_pubkey, np);
    assert_eq!(rec.endpoints[0].addr, SocketAddr::v4(10, 0, 0, 10, 9000));
}

#[test]
fn test_find_value_found() {
    let mut a = node(12);
    let mut b = node(13);
    let (_, pk, peer, np) = dummy();
    let ep = Endpoint::new(SocketAddr::v4(10, 0, 0, 14, 9000), EndpointKind::STUN);
    let store =
        encode_store_request(b.peer_id(), &peer.0, 600, &pk, &np, Capabilities::new(), &[ep]);
    deliver(&store, &mut b, addr(13), &mut a, addr(12));
    b.add_node(a.peer_id(), addr(12), NOW);
    let asked = match b.find_peer(&peer, [6u8; 16], NOW) {
        Lookup::Ask(out) => out,
        Lookup::Known(_) => panic!("B does not know the record"),
    };
    assert_eq!(asked.len(), 1);
    assert_eq!(asked[0].to, addr(12));
    let out = a.handle_incoming(&asked[0].data, addr(13), NOW).unwrap();
    assert_eq!(out.outgoing.len(), 1);
    let answer = b.handle_incoming(&out.outgoing[0].data, addr(12), NOW).unwrap();
    let (id, rec) = answer.answer.unwrap();
    assert_eq!(id, [6u8; 16]);
    assert_eq!(rec.unwrap().pubkey, pk);
    assert!(a.get_peer_record(&peer, NOW).is_some());
}

#[test]
fn test_rate_limit_drops_excess() {
    let mut b = node(17);
    let ping = encode_ping_request(make_id(16), [7u8; 16]);
    let mut answered = 0;
    for _ in 0..50 {
        answered += b.handle_incoming(&ping, addr(16), NOW).unwrap().outgoing.len();
    }
    assert!(b.routing_table_size() <= 50);
    assert!(answered <= 50);
    assert!(b.check_rate_limit(&make_id(99), NOW));
}

#[test]
fn test_find_value_not_found_returns_nodes() {
    let mut a = node(18);
    let ping = encode_ping_request(make_id(19), [10u8; 16]);
    a.handle_incoming(&ping, addr(19), NOW).unwrap();
    let msg_id = [11u8; 16];
    let fv = encode_find_value_request(make_id(19), msg_id, &[0xFFu8; 32]);
    let out = a.handle_incoming(&fv, addr(19), NOW).unwrap();
    let msg = decode_message(&out.outgoing[0].data).unwrap();
    assert!(msg.is_response);
    assert_eq!(msg.message_id, msg_id);
    assert_eq!(msg.payload[0], 0, "first byte should be 0 (not found)");
}

#[test]
fn test_store_ttl_clamping() {
    let mut a = node(20);
    let (_, pk, peer, np) = dummy();
    let ep = Endpoint::new(SocketAddr::v4(10, 0, 0, 10, 8000), EndpointKind::STUN);
    let store =
        encode_store_request(make_id(21), &peer.0, 0, &pk, &np, Capabilities::new(), &[ep]);
    a.handle_incoming(&store, addr(21), NOW).unwrap();
    let rec = a.get_peer_record(&peer, NOW).unwrap();
    assert!(rec.ttl_remaining >= 300);
}

#[test]
fn test_store_rejects_mismatched_pubkey() {
    let mut a = node(22);
    let ep = Endpoint::new(SocketAddr::v4(10, 0, 0, 99, 1), EndpointKind::STUN);
    let bad = encode_store_request(
        make_id(23), &[24u8; 32], 600, &[25u8; 32], &[26u8; 32], Capabilities::new(), &[ep],
    );
    let _ = a.handle_incoming(&bad, addr(23), NOW);
    assert!(a.get_peer_record(&PeerId([24u8; 32]), NOW).is_none());
}

#[test]
fn test_save_and_load_routes() {
    let mut a = node(27);
    let ping = encode_ping_request(make_id(28), [14u8; 16]);
    a.handle_incoming(&ping, addr(28), NOW).unwrap();
    assert!(a.routing_table_size() >= 1);
    let saved = a.save_routes();
    assert_eq!(saved.len(), 1);
    assert_eq!(saved[0].node_id_hex, make_id(28).to_hex());
    let read: Vec<ReadRoute> = saved
        .into_iter()
        .map(|e| ReadRoute { node_id_hex: e.node_id_hex, addr: Some(e.addr) })
        .collect();
    let mut c = node(29);
    assert!(c.load_routes(&read, NOW) >= 1);
    assert_eq!(c.routing_table_size(), 1);
}

#[test]
fn test_load_routes_nonexistent_file() {
    let mut dht = node(30);
    assert_eq!(dht.load_routes(&[], NOW), 0, "nothing to load gives 0 routes");
}

#[test]
fn unreadable_routes_are_left_out() {
    let mut dht = node(30);
    let read = [
        ReadRoute { node_id_hex: "zz".to_string(), addr: Some(addr(1)) },
        ReadRoute { node_id_hex: make_id(3).to_hex(), addr: None },
        ReadRoute { node_id_hex: make_id(4).to_hex(), addr: Some(addr(4)) },
    ];
    dht.load_routes(&read, NOW);
    assert_eq!(dht.routing_table_size(), 1);
}

#[test]
fn test_signed_message_verified_and_rejected() {
    let (id, pk, peer, np) = dummy();
    let seed = id.signing_seed();
    let mut receiver = node(31);
    let store = encode_store_request_signed(
        peer, [1u8; 16], &peer.0, 600, &pk, &np, Capabilities::new(), &[], Some(&seed),
    );
    receiver.handle_incoming(&store, addr(50), NOW).unwrap();
    assert!(receiver.get_peer_record(&peer, NOW).is_some());

    let ping = encode_ping_request_signed(peer, [42u8; 16], Some(&seed));
    assert_eq!(receiver.handle_incoming(&ping, addr(50), NOW).unwrap().outgoing.len(), 1);
    assert!(receiver.routing_table_size() >= 1);

    let mut tampered = encode_ping_request_signed(peer, [43u8; 16], Some(&seed));
    tampered[20] ^= 0xFF;
    let _ = receiver.handle_incoming(&tampered, addr(50), NOW);
    assert!(receiver.routing_table_size() >= 1);
    let mut forged = encode_ping_request_signed(peer, [43u8; 16], Some(&seed));
    let last = forged.len() - 1;
    forged[last] ^= 0x01;
    assert!(matches!(
        receiver.handle_incoming(&forged, addr(50), NOW),
        Err(DhtError::InvalidSignature { .. })
    ));
    assert!(receiver.routing_table_size() >= 1);
}

#[test]
fn test_sender_without_record_accepted_deferred() {
    let (id, _, peer, _) = dummy();
    let mut receiver = node(32);
    let ping = encode_ping_request_signed(peer, [44u8; 16], Some(&id.signing_seed()));
    receiver.handle_incoming(&ping, addr(51), NOW).unwrap();
    assert!(receiver.routing_table_size() >= 1);
}

#[test]
fn test_expired_records_removed_by_cleanup() {
    let mut dht = node(35);
    let (_, pk, peer, np) = dummy();
    let store = encode_store_request(make_id(36), &peer.0, 300, &pk, &np, Capabilities::new(), &[]);
    dht.handle_incoming(&store, addr(36), NOW).unwrap();
    let (_, pk2, live, np2) = dummy();
    let store = encode_store_request(make_id(36), &live.0, 3600, &pk2, &np2, Capabilities::new(), &[]);
    dht.handle_incoming(&store, addr(36), NOW).unwrap();
    assert!(dht.get_peer_record(&peer, NOW).is_some());
    let later = NOW + 301_000;
    assert!(dht.get_peer_record(&peer, later).is_none());
    dht.cleanup(later);
    assert!(dht.get_peer_record(&peer, NOW).is_none(), "expired record should be gone");
    assert!(dht.get_peer_record(&live, later).is_some(), "live record should remain");
}

#[test]
fn test_find_peer_returns_cached_record_even_when_node_offline() {
    let mut a = node(36);
    let (_, pk, peer, np) = dummy();
    let ep = Endpoint::new(SocketAddr::v4(10, 0, 0, 99, 1), EndpointKind::STUN);
    let store = encode_store_request(make_id(37), &peer.0, 600, &pk, &np, Capabilities::new(), &[ep]);
    a.handle_incoming(&store, addr(37), NOW).unwrap();
    match a.find_peer(&peer, [50u8; 16], NOW) {
        Lookup::Known(rec) => assert_eq!(rec.endpoints[0].addr.port(), 1),
        Lookup::Ask(_) => panic!("cached record should be returned even if node is offline"),
    }
    let unknown = PeerId([0xDEu8; 32]);
    assert!(matches!(a.find_peer(&unknown, [51u8; 16], NOW), Lookup::Ask(_)));
    a.find_peer_timed_out(&[51u8; 16]);
}

#[test]
fn test_store_self_propagates_to_routing_table() {
    let mut seed = node(38);
    let (id, pk, peer, np) = dummy();
    let mut client = DhtHandle::new(peer, DhtConfig::default());
    client.set_signer(id.signing_seed());
    let ping = encode_ping_request(peer, [60u8; 16]);
    deliver(&ping, &mut client, addr(39), &mut seed, addr(38));
    assert!(client.routing_table_size() >= 1);
    let ep = Endpoint::new(SocketAddr::v4(10, 0, 0, 39, 9999), EndpointKind::STUN);
    let out: Vec<Outgoing> =
        client.store_self(&pk, &np, &[ep], Capabilities::new(), [61u8; 16], NOW);
    let stored = out.iter().find(|m| m.to == addr(38)).expect("the seed is stored with");
    seed.handle_incoming(&stored.data, addr(39), NOW).unwrap();
    let rec = seed.get_peer_record(&peer, NOW).expect("seed should have client's record");
    assert_eq!(rec.endpoints[0].addr, SocketAddr::v4(10, 0, 0, 39, 9999));
}

#[test]
fn test_dht_node_offline_find_peer_graceful() {
    let mut lone = node(40);
    match lone.find_peer(&PeerId([0xABu8; 32]), [1u8; 16], NOW) {
        Lookup::Ask(out) => assert!(out.is_empty()),
        Lookup::Known(_) => panic!("nothing is known"),
    }
    assert!(lone.find_relays().is_empty());
}

#[test]
fn queries_are_answered_once() {
    let mut a = node(41);
    a.add_node(make_id(42), addr(42), NOW);
    let asked = match a.find_peer(&make_id(43), [9u8; 16], NOW) {
        Lookup::Ask(out) => out,
        Lookup::Known(_) => panic!("nothing is known"),
    };
    assert_eq!(asked.len(), 1);
    let mut b = node(42);
    let out = b.handle_incoming(&asked[0].data, addr(41), NOW).unwrap();
    let response = &out.outgoing[0].data;
    let first = a.handle_incoming(response, addr(42), NOW).unwrap();
    assert!(first.answer.is_some());
    let second = a.handle_incoming(response, addr(42), NOW).unwrap();
    assert!(second.answer.is_none());
}

#[test]
fn relays_are_found() {
    let mut a = node(44);
    let (_, pk, peer, np) = dummy();
    let caps = Capabilities::new().with(Capabilities::RELAY_CAPABLE);
    let store = encode_store_request(peer, &peer.0, 600, &pk, &np, caps, &[]);
    a.handle_incoming(&store, addr(45), NOW).unwrap();
    a.add_node(peer, addr(45), NOW);
    let relays = a.find_relays();
    assert_eq!(relays.len(), 1);
    assert_eq!(relays[0].node_id, peer);
    assert_eq!(relays[0].noise_pubkey, np);
}

#[test]
fn bootstrap_tries_and_fails() {
    let a = node(46);
    let (ping, find) = a.bootstrap();
    assert_eq!(decode_message(&ping).unwrap().msg_type, DhtMsgType::Ping);
    let find = decode_message(&find).unwrap();
    assert_eq!(find.msg_type, DhtMsgType::FindNode);
    assert_eq!(find.payload, make_id(46).0.to_vec());
    match DhtHandle::bootstrap_step(&[], 0, "none".to_string()) {
        BootstrapStep::Failed(DhtError::BootstrapFailed { .. }) => {}
        other => panic!("unexpected {other:?}"),
    }
    match DhtHandle::bootstrap_step(&[addr(1)], 0, "none".to_string()) {
        BootstrapStep::Try(to) => assert_eq!(to, addr(1)),
        other => panic!("unexpected {other:?}"),
    }
}

#[test]
fn random_ids_fall_into_their_bucket() {
    let a = node(47);
    for i in [0usize, 1, 7, 8, 100, 255] {
        let id = a.random_id_in_bucket(i);
        assert_eq!(a.peer_id().bucket_index(&id), i);
        assert_ne!(id, a.peer_id());
    }
}

#[test]
fn undecodable_messages_are_errors() {
    let mut a = node(48);
    match a.handle_incoming(&[0u8; 3], addr(1), NOW) {
        Err(e) => assert_eq!(e.text(), "serialization error: decode failed"),
        Ok(_) => panic!("three bytes are no message"),
    }
}

#[test]
fn requests_in_another_version_get_an_error_response() {
    let mut a = node(49);
    let mut ping = encode_ping_request(make_id(50), [7u8; 16]);
    ping[0] = 2;
    let sent = match a.handle_incoming(&ping, addr(1), NOW) {
        Ok(o) => o.outgoing,
        Err(e) => panic!("unexpected {}", e.text()),
    };
    assert_eq!(sent.len(), 1);
    assert_eq!(sent[0].to, addr(1));
    let answer = decode_message(&sent[0].data).unwrap();
    assert_eq!(answer.msg_type, DhtMsgType::Error);
    assert!(answer.is_response);
    assert_eq!(answer.message_id, [7u8; 16]);
    assert_eq!(answer.payload, vec![1u8]);
    assert_eq!(a.routing_table_size(), 0);

    let mut response = sent[0].data.clone();
    response[0] = 2;
    assert!(a.handle_incoming(&response, addr(1), NOW).is_err());
}

#[test]
fn what_one_stores_a_third_finds() {
    let (identity, key, id, noise_key) = dummy();
    let mut a = DhtHandle::new(id, DhtConfig::default());
    a.set_signer(identity.signing_seed());
    let mut b = node(2);
    let mut c = node(3);
    a.add_node(make_id(2), addr(2), NOW);
    c.add_node(make_id(2), addr(2), NOW);
    let eps = [Endpoint::new(SocketAddr::v4(10, 0, 0, 1, 7), EndpointKind::STUN)];
    let sent = a.store_self(&key, &noise_key, &eps, Capabilities::new(), [1u8; 16], NOW);
    assert_eq!(sent.len(), 1);
    b.handle_incoming(&sent[0].data, addr(1), NOW).unwrap();
    let asked = match c.find_peer(&id, [2u8; 16], NOW + 1) {
        Lookup::Ask(out) => out,
        Lookup::Known(_) => panic!("known"),
    };
    let answer = b.handle_incoming(&asked[0].data, addr(3), NOW + 299_999).unwrap();
    assert_eq!(answer.outgoing.len(), 1);
    let found = c.handle_incoming(&answer.outgoing[0].data, addr(2), NOW + 5).unwrap();
    let (query, record) = found.answer.unwrap();
    assert_eq!(query, [2u8; 16]);
    let record = record.unwrap();
    assert_eq!(record.pubkey, key);
    assert_eq!(record.noise_pubkey, noise_key);
    assert_eq!(record.endpoints.len(), 1);
    assert_eq!(record.endpoints[0], eps[0]);
    assert_eq!(record.ttl_remaining, 300);

    let late = match c.find_peer(&id, [3u8; 16], NOW + 6) {
        Lookup::Ask(out) => out,
        Lookup::Known(_) => panic!("known"),
    };
    let answer = b.handle_incoming(&late[0].data, addr(3), NOW + 300_000).unwrap();
    let none = c.handle_incoming(&answer.outgoing[0].data, addr(2), NOW + 7).unwrap();
    assert!(none.answer.unwrap().1.is_none());
}

#[test]
fn own_signatures_hold() {
    let (identity, key, id, noise_key) = dummy();
    let seed = identity.signing_seed();
    let mut b = node(2);
    let store = encode_store_request_signed(
        id,
        [1u8; 16],
        &id.0,
        300,
        &key,
        &noise_key,
        Capabilities::new(),
        &[],
        Some(&seed),
    );
    assert!(b.handle_incoming(&store, addr(1), NOW).is_ok());
    let mut wrong = store.clone();
    wrong[60] ^= 1;
    assert!(b.handle_incoming(&wrong, addr(1), NOW).is_err());
    let ping = encode_ping_request_signed(id, [2u8; 16], Some(&seed));
    assert!(b.handle_incoming(&ping, addr(1), NOW).is_ok());
}
