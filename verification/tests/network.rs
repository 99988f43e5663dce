use lain::endpoint::{Endpoint, EndpointKind, SocketAddr};
use lain::port_predict::{LinearPredictor, PortPredictor};
use lain::stun::{
    binding_request_for, build_binding_request, parse_mapped, pick_global_ipv6, NatProbe, NatType,
    ProbeAttempt,
};
use lain::transport::quic_targets;
use lain::tso::{
    connect_timeout_ms, connection_pairs, local_port_count, remote_targets, SearchAction,
    TsoSearch, TSO_BUSY_MS, TSO_DEADLINE_MS, TSO_STAGGER_MS,
};

#[test]
fn predictable_delta_1() {
    let pred = LinearPredictor::new(5);
    let result = pred.predict(&[50000, 50001], Some(1), None);
    assert_eq!(result, vec![50002, 50003, 50004, 50005, 50006]);
}

#[test]
fn predictable_delta_2() {
    let pred = LinearPredictor::new(3);
    let result = pred.predict(&[50000], Some(2), None);
    assert_eq!(result, vec![50002, 50004, 50006]);
}

#[test]
fn unpredictable_returns_empty() {
    let pred = LinearPredictor::new(10);
    let result = pred.predict(&[50000], None, None);
    assert!(result.is_empty());
}

#[test]
fn delta_zero_returns_empty() {
    let pred = LinearPredictor::new(5);
    let result = pred.predict(&[50000], Some(0), None);
    assert!(result.is_empty());
}

#[test]
fn no_duplicates() {
    let pred = LinearPredictor::new(20);
    let result = pred.predict(&[50000, 50001], Some(1), None);
    let unique: std::collections::HashSet<u16> = result.iter().copied().collect();
    assert_eq!(result.len(), unique.len());
}

/// What a STUN server answers: the masked mapped address.
fn mock_stun(port: u16, ip: [u8; 4], tid: &[u8; 12]) -> Vec<u8> {
    let cookie = [0x21, 0x12, 0xA4, 0x42];
    let port_xor = port ^ u16::from_be_bytes([cookie[0], cookie[1]]);
    let mut resp = vec![0u8; 32];
    resp[0] = 0x01;
    resp[1] = 0x01;
    resp[2] = 0x00;
    resp[3] = 12;
    resp[4..8].copy_from_slice(&cookie);
    resp[8..20].copy_from_slice(tid);
    resp[20] = 0x00;
    resp[21] = 0x20;
    resp[22] = 0x00;
    resp[23] = 0x08;
    resp[24] = 0x00;
    resp[25] = 0x01;
    resp[26..28].copy_from_slice(&port_xor.to_be_bytes());
    for i in 0..4 {
        resp[28 + i] = ip[i] ^ cookie[i];
    }
    resp
}

fn probe(port: u16, ip: [u8; 4]) -> ProbeAttempt {
    let tid = [7u8; 12];
    let mapped = parse_mapped(&mock_stun(port, ip, &tid), &tid).unwrap();
    ProbeAttempt { mapped, rtt_ms: 30 }
}

#[test]
fn test_cone() {
    let r = NatProbe::conclude(
        &[probe(10000, [10, 0, 0, 1]), probe(10000, [10, 0, 0, 1])],
        false,
        None,
    );
    assert_eq!(r.nat_type, NatType::Cone);
    assert!(r.mapped_addr.is_some());
    assert_eq!(r.stun_rtt_ms, Some(30));
}

#[test]
fn test_symmetric() {
    let r = NatProbe::conclude(
        &[probe(10000, [10, 0, 0, 1]), probe(20000, [10, 0, 0, 1])],
        false,
        None,
    );
    assert_eq!(r.nat_type, NatType::ADFSymmetric);
}

#[test]
fn test_no_servers() {
    let p = NatProbe::new(vec![], 1);
    assert!(p.servers().is_empty());
    let r = NatProbe::conclude(&[], true, None);
    assert_eq!(r.nat_type, NatType::Unknown);
    assert!(r.mapped_addr.is_none());
    assert!(r.ipv6_inbound);
}

#[test]
fn test_parse_mapped() {
    let mut msg = vec![0u8; 32];
    msg[0] = 0x01;
    msg[1] = 0x01;
    msg[2] = 0x00;
    msg[3] = 12;
    msg[4..8].copy_from_slice(&[0x21, 0x12, 0xA4, 0x42]);
    let tid = [1u8, 2, 3, 4, 5, 6, 7, 8, 9, 10, 11, 12];
    msg[8..20].copy_from_slice(&tid);
    msg[20] = 0x00;
    msg[21] = 0x01;
    msg[22] = 0x00;
    msg[23] = 0x08;
    msg[24] = 0;
    msg[25] = 1;
    msg[26..28].copy_from_slice(&8080u16.to_be_bytes());
    msg[28..32].copy_from_slice(&[192, 168, 1, 100]);
    let r = parse_mapped(&msg, &tid).unwrap();
    assert_eq!(r.port(), 8080);
    assert_eq!(r, SocketAddr::v4(192, 168, 1, 100, 8080));
}

#[test]
fn masked_mapped_address() {
    let tid = [3u8; 12];
    let msg = mock_stun(40000, [203, 0, 113, 9], &tid);
    assert_eq!(parse_mapped(&msg, &tid), Some(SocketAddr::v4(203, 0, 113, 9, 40000)));
    assert_eq!(parse_mapped(&msg, &[4u8; 12]), None);
    assert_eq!(parse_mapped(&msg[..19], &tid), None);
}

#[test]
fn binding_requests() {
    let req = binding_request_for(&[9u8; 12]);
    assert_eq!(&req[..8], &[0, 1, 0, 0, 0x21, 0x12, 0xA4, 0x42]);
    assert_eq!(&req[8..], &[9u8; 12]);
    let (data, tid) = build_binding_request();
    assert_eq!(data, binding_request_for(&tid));
    let (_, other) = build_binding_request();
    assert_ne!(tid, other);
}

#[test]
fn steps_between_ports() {
    let r = NatProbe::conclude(
        &[probe(10000, [10, 0, 0, 1]), probe(10002, [10, 0, 0, 1]), probe(10004, [10, 0, 0, 1])],
        false,
        None,
    );
    assert_eq!(r.port_delta, Some(2));
    let irregular = NatProbe::conclude(
        &[probe(10000, [10, 0, 0, 1]), probe(10002, [10, 0, 0, 1]), probe(10005, [10, 0, 0, 1])],
        false,
        None,
    );
    assert_eq!(irregular.port_delta, None);
}

#[test]
fn global_ipv6_is_picked() {
    let mut local = [0u8; 16];
    local[0] = 0xfe;
    let mut global = [0u8; 16];
    global[0] = 0x24;
    assert_eq!(pick_global_ipv6(&[local, global]), Some(global));
    assert_eq!(pick_global_ipv6(&[local]), None);
}

#[test]
fn simultaneous_parameters() {
    assert_eq!(local_port_count(Some(1)), 4);
    assert_eq!(local_port_count(Some(2)), 8);
    assert_eq!(local_port_count(None), 8);
    assert_eq!(connect_timeout_ms(None), 5000);
    assert_eq!(connect_timeout_ms(Some(10)), 5000);
    assert_eq!(connect_timeout_ms(Some(300)), 6000);
    assert_eq!(connect_timeout_ms(Some(u64::MAX)), 10000);
}

#[test]
fn predicted_targets() {
    let pred = LinearPredictor::new(2);
    let eps = [SocketAddr::v4(9, 9, 9, 9, 50001), SocketAddr::v4(9, 9, 9, 9, 50000)];
    let targets = remote_targets(&pred, &eps, Some(1), None, 0, 0, &[1, 2, 3]);
    assert_eq!(
        targets,
        vec![
            SocketAddr::v4(9, 9, 9, 9, 50000),
            SocketAddr::v4(9, 9, 9, 9, 50001),
            SocketAddr::v4(9, 9, 9, 9, 50002),
            SocketAddr::v4(9, 9, 9, 9, 50003),
        ]
    );
}

#[test]
fn random_targets() {
    let pred = LinearPredictor::new(2);
    let eps = [SocketAddr::v4(9, 9, 9, 9, 50000)];
    let targets = remote_targets(&pred, &eps, None, None, 1128, 1200, &[0, 327, 328, 0]);
    assert_eq!(
        targets,
        vec![
            SocketAddr::v4(9, 9, 9, 9, 1000),
            SocketAddr::v4(9, 9, 9, 9, 1327),
            SocketAddr::v4(9, 9, 9, 9, 50000),
        ]
    );
    assert!(remote_targets(&pred, &[], None, None, 1, 2, &[5]).is_empty());
}

#[test]
fn a_reversed_range_has_one_port() {
    let pred = LinearPredictor::new(2);
    let eps = [SocketAddr::v4(9, 9, 9, 9, 50000)];
    let targets = remote_targets(&pred, &eps, None, None, 60000, 1000, &[0, 7, 4000000000]);
    assert_eq!(
        targets,
        vec![SocketAddr::v4(9, 9, 9, 9, 50000), SocketAddr::v4(9, 9, 9, 9, 59872)]
    );
}

#[test]
fn local_ports_end_at_the_last() {
    let bind = SocketAddr::v4(0, 0, 0, 0, 4433);
    let targets = [SocketAddr::v4(9, 9, 9, 9, 1)];
    let pairs = connection_pairs(&bind, 65534, 8, &targets);
    let ports: Vec<u16> = pairs.iter().map(|p| p.local.port()).collect();
    assert_eq!(ports, vec![65534, 65535]);
}

#[test]
fn no_pair_is_tried_twice() {
    let bind = SocketAddr::v4(0, 0, 0, 0, 4433);
    let targets = [SocketAddr::v4(9, 9, 9, 9, 1), SocketAddr::v4(9, 9, 9, 9, 2)];
    let pairs = connection_pairs(&bind, 50000, 2, &targets);
    assert_eq!(pairs.len(), 4);
    assert_eq!(pairs[3].local, SocketAddr::v4(0, 0, 0, 0, 50001));
    assert_eq!(pairs[3].remote, targets[1]);
    let mut search = TsoSearch::new(pairs);
    let mut seen = Vec::new();
    for i in 0..4usize {
        match search.next(1000, false, 13 + i) {
            SearchAction::Try(pair, ms) => {
                assert_eq!(ms, TSO_STAGGER_MS);
                assert!(!seen.contains(&(pair.local, pair.remote)));
                seen.push((pair.local, pair.remote));
            }
            other => panic!("unexpected {other:?}"),
        }
    }
    assert!(matches!(search.next(1000, false, 0), SearchAction::Wait(TSO_BUSY_MS)));
    let freed = connection_pairs(&bind, 50000, 2, &targets)[2];
    search.finished(&freed);
    match search.next(1000, false, 99) {
        SearchAction::Try(pair, _) => assert_eq!(pair.remote, freed.remote),
        other => panic!("unexpected {other:?}"),
    }
    match search.next(TSO_DEADLINE_MS, false, 0) {
        SearchAction::TimedOut(e) => assert_eq!(e.text(), "connect: TSO timeout"),
        other => panic!("unexpected {other:?}"),
    }
    assert!(matches!(search.next(TSO_DEADLINE_MS, true, 0), SearchAction::Connected));
}

#[test]
fn quic_leaves_other_endpoints_out() {
    let a = Endpoint::new(SocketAddr::v4(1, 1, 1, 1, 1), EndpointKind::TSO);
    let b = Endpoint::new(SocketAddr::v4(2, 2, 2, 2, 2), EndpointKind::STUN);
    assert_eq!(quic_targets(&[a, b]), vec![SocketAddr::v4(2, 2, 2, 2, 2)]);
}
