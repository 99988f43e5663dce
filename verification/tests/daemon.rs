use lain::capabilities::Capabilities;
use lain::config::{
    config_files, home_dir, ipc_socket, join_path, lain_file, listen_path, DaemonConfig,
};
use lain::conn_mgr::{
    resume_frame, resume_payload, ConnectionManager, PeerStreamState, ReconnectAction,
};
use lain::daemon::{
    bind_address, is_relay_request, own_capabilities, own_endpoints, own_ipv6, parse_invite_at,
    parse_relay_request, relay_request, DaemonError,
};
use lain::directory::{PeerRecord, RelayInfo};
use lain::endpoint::{Endpoint, EndpointKind, SocketAddr};
use lain::error::CoreError;
use lain::frame::{decode_frame_header, encode_frame, encode_varint, FrameType};
use lain::identity::{Identity, IdentityProvider};
use lain::iface_watcher::{iface_changed, interface_addrs, is_loopback, InterfaceWatcher};
use lain::ipc::{peer_connected, peer_disconnected, IpcCommand, IpcData, IpcResponse};
use lain::mdns::{MdnsDiscovery, MdnsError, MdnsEvent, ResolvedService};
use lain::peer::PeerId;
use lain::session::{
    find_action, relay_endpoint, tso_addresses, ConnectAction, ConnectAttempt, ConnectEvent,
    ConnectStage, FindAction, LookupOutcome, PeerSession, SessionAction, SessionEvent,
    SessionStage,
};
use lain::stun::{NatProbeResult, NatType};
use lain::supervisor::{Daemon, DaemonAction, HeartbeatAction, IncomingAction};
use lain::transport::TransportError;

#[test]
fn test_default_config() {
    let config = DaemonConfig::default();
    assert_eq!(config.dht.k, 20);
    assert_eq!(config.transport.tso_port_start, 50000);
    assert_eq!(config.stun_servers[2], "stun.l.google.com:19302");
}

#[test]
fn first_configuration_is_taken() {
    let mut a = DaemonConfig::default();
    a.dht.k = 7;
    let mut b = DaemonConfig::default();
    b.dht.k = 8;
    assert_eq!(DaemonConfig::load_or_default(vec![None, Some(a), Some(b)]).dht.k, 7);
    assert_eq!(DaemonConfig::load_or_default(vec![None, None]).dht.k, 20);
    assert_eq!(config_files(), vec!["lain.toml".to_string(), "config.toml".to_string()]);
}

#[test]
fn paths() {
    assert_eq!(join_path("/home/a", "b"), "/home/a/b");
    assert_eq!(join_path("/", "b"), "/b");
    assert_eq!(join_path("", "b"), "b");
    assert_eq!(lain_file("/home/a", "routes.json"), "/home/a/.lain/routes.json");
    assert_eq!(ipc_socket("/x", Some("/home/a")), "/x");
    assert_eq!(ipc_socket("", Some("/home/a")), "/home/a/.lain/socket");
    assert_eq!(ipc_socket("", None), "/tmp/lain.socket");
    assert_eq!(home_dir(Some("l".to_string()), Some("h".to_string())), Some("l".to_string()));
    assert_eq!(home_dir(None, Some("h".to_string())), Some("h".to_string()));
    assert_eq!(listen_path(Some("p".to_string()), Some("/h")), Some("p".to_string()));
    assert_eq!(listen_path(None, Some("/h")), Some("/h/.lain/socket".to_string()));
    assert_eq!(listen_path(None, None), None);
}

#[test]
fn test_connection_manager() {
    let mut mgr = ConnectionManager::new();
    let pid = PeerId([1u8; 32]);
    mgr.add_peer(pid);
    assert_eq!(mgr.active_peers().len(), 1);
    mgr.remove_peer(&pid);
    assert_eq!(mgr.active_peers().len(), 0);
}

#[test]
fn test_stream_resume_parse() {
    let mut payload = Vec::new();
    encode_varint(2, &mut payload);
    encode_varint(3, &mut payload);
    encode_varint(100, &mut payload);
    encode_varint(5, &mut payload);
    encode_varint(200, &mut payload);

    let result = ConnectionManager::handle_resume(&payload);
    assert!(result.is_some());
    let streams = result.unwrap();
    assert_eq!(streams.len(), 2);
    assert_eq!(streams[0], (3, 100));
    assert_eq!(streams[1], (5, 200));
    assert!(ConnectionManager::handle_resume(&payload[..payload.len() - 1]).is_none());
    assert!(ConnectionManager::handle_resume(&[]).is_none());
}

fn two_streams() -> PeerStreamState {
    let mut state = PeerStreamState::default();
    state.active_streams = vec![3, 70000];
    state.last_seq.insert(70000, 99);
    state
}

#[test]
fn resume_roundtrip() {
    let state = two_streams();
    let payload = resume_payload(&state);
    assert_eq!(ConnectionManager::handle_resume(&payload), Some(vec![(3, 0), (70000, 99)]));
    let frame = resume_frame(&state).unwrap();
    let (sid, t, len, at) = decode_frame_header(&frame).unwrap();
    assert_eq!((sid, t, len as usize), (0, FrameType::StreamResume, payload.len()));
    assert_eq!(&frame[at..], &payload[..]);
    assert!(resume_frame(&PeerStreamState::default()).is_none());
}

#[test]
fn lost_connections_are_tried_again() {
    let pid = PeerId([1u8; 32]);
    let mut mgr = ConnectionManager::new();
    assert!(mgr.on_disconnect(&pid).is_none());
    mgr.restore_peer(pid, two_streams());
    let mut rec = mgr.on_disconnect(&pid).unwrap();
    assert_eq!(rec.state().active_streams, vec![3, 70000]);
    for wait in [1, 3, 9, 27, 81, 243, 300] {
        assert_eq!(rec.next(false), ReconnectAction::RetryAfter(wait));
    }
    assert_eq!(rec.next(false), ReconnectAction::GiveUpAfter(300));
    mgr.settle(pid, &rec, false);
    assert!(mgr.active_peers().is_empty());
    mgr.restore_peer(pid, two_streams());
    let mut rec = mgr.on_disconnect(&pid).unwrap();
    assert_eq!(rec.next(true), ReconnectAction::Resume);
    mgr.settle(pid, &rec, true);
    assert_eq!(mgr.active_peers(), vec![pid]);
}

#[test]
fn test_current_addrs_not_empty() {
    let ifaces = [SocketAddr::v4(192, 168, 1, 7, 0), SocketAddr::v4(127, 0, 0, 1, 0)];
    let addrs = InterfaceWatcher::current_addrs(&ifaces);
    assert!(!addrs.is_empty());
    assert_eq!(addrs, vec![SocketAddr::v4(192, 168, 1, 7, 0)]);
    assert!(InterfaceWatcher::current_addrs(&[]).is_empty());
}

#[test]
fn test_check_is_idempotent() {
    let ifaces = [SocketAddr::v4(192, 168, 1, 7, 0), SocketAddr::v4(127, 0, 0, 1, 0)];
    let mut w = InterfaceWatcher::new();
    w.snapshot(InterfaceWatcher::current_addrs(&ifaces));
    let (a, r) = w.check(InterfaceWatcher::current_addrs(&ifaces));
    assert!(a.is_empty());
    assert!(r.is_empty());
}

#[test]
fn changes_of_addresses() {
    let a = SocketAddr::v4(10, 0, 0, 1, 0);
    let b = SocketAddr::v4(10, 0, 0, 2, 0);
    let mut w = InterfaceWatcher::new();
    assert_eq!(w.check(vec![a]), (vec![a], vec![]));
    assert_eq!(w.check(vec![b]), (vec![b], vec![a]));
    assert_eq!(w.check(vec![b]), (vec![], vec![]));
    assert!(iface_changed(&[a, b], &[b, a]));
    assert!(!iface_changed(&[a], &[a]));
    let mut ip = [0u8; 16];
    ip[15] = 1;
    assert!(is_loopback(&SocketAddr::v6(ip, 0)));
    ip[0] = 0x20;
    assert!(!is_loopback(&SocketAddr::v6(ip, 0)));
    assert_eq!(
        InterfaceWatcher::current_addrs(&[SocketAddr::v4(127, 1, 1, 1, 0), SocketAddr::v6(ip, 9)]),
        vec![SocketAddr::v6(ip, 0)]
    );
}

#[test]
fn an_address_of_two_interfaces() {
    let a = SocketAddr::v4(10, 0, 0, 1, 0);
    let b = SocketAddr::v4(10, 0, 0, 2, 0);
    assert_eq!(InterfaceWatcher::current_addrs(&[a, b, a]), vec![a, b]);
    assert_eq!(interface_addrs(&[a, b, a]), vec![a, b, a]);
    let mut w = InterfaceWatcher::new();
    assert_eq!(w.check(vec![a, a, b]), (vec![a, b], vec![]));
    assert_eq!(w.check(vec![b, a, b]), (vec![], vec![]));
    w.snapshot(vec![b, b]);
    assert_eq!(w.check(vec![]), (vec![], vec![b]));
}

/// What the library looks at of what the mdns-sd crate resolves.
fn converted(info: &mdns_sd::ServiceInfo) -> MdnsEvent {
    MdnsEvent::Resolved(ResolvedService {
        peer_id: info.get_property("peer_id").and_then(|p| p.val()).map(|v| v.to_vec()),
        address: info.get_addresses_v4().iter().next().map(|ip| {
            let o = ip.octets();
            SocketAddr::v4(o[0], o[1], o[2], o[3], info.get_port())
        }),
        port: info.get_port(),
    })
}

fn service(peer_id: &str) -> mdns_sd::ServiceInfo {
    let properties: [(&str, &str); 1] = [("peer_id", peer_id)];
    mdns_sd::ServiceInfo::new(
        "_lain._udp.local.",
        "abc123",
        "abc123.local.",
        "192.168.1.1",
        53617,
        &properties as &[(&str, &str)],
    )
    .unwrap()
}

#[test]
fn test_parse_peer_from_event_resolved() {
    let event = converted(&service("dummy"));
    let _ = MdnsDiscovery::parse_peer_from_event(&event);
    assert!(MdnsDiscovery::parse_peer_from_event(&event).is_none());
}

#[test]
fn announced_peer_is_found() {
    let me = PeerId([5u8; 32]);
    let there = MdnsDiscovery::new(PeerId([0xABu8; 32]), 53617);
    assert_eq!(there.service_type(), "_lain._udp.local.");
    assert_eq!(there.service_name(), "abababababababab");
    assert_eq!(there.hostname(), "abababababababab.local.");
    assert_eq!(there.port(), 53617);
    let event = converted(&service(&there.property()));
    let at = SocketAddr::v4(192, 168, 1, 1, 53617);
    assert_eq!(
        MdnsDiscovery::parse_peer_from_event(&event),
        Some((PeerId([0xABu8; 32]), at, 53617))
    );
    let here = MdnsDiscovery::new(me, 1);
    let (ping, to) = here.ping_for(&event, [1u8; 16]).unwrap();
    assert_eq!(to, at);
    assert_eq!(ping, lain::dht::message::encode_ping_request(me, [1u8; 16]));
    assert!(there.ping_for(&event, [1u8; 16]).is_none());
    assert!(here.ping_for(&MdnsEvent::Other, [1u8; 16]).is_none());
    assert_eq!(MdnsError::Service("x".to_string()).text(), "mDNS error: x");
}

fn probe(nat_type: NatType, ipv6_inbound: bool) -> NatProbeResult {
    NatProbeResult {
        nat_type,
        ipv6_inbound,
        ipv6_addr: None,
        mapped_addr: Some(SocketAddr::v4(203, 0, 113, 5, 40000)),
        port_delta: Some(1),
        stun_rtt_ms: Some(45),
    }
}

#[test]
fn own_addresses() {
    let mut ip = [0u8; 16];
    ip[0] = 0x20;
    assert_eq!(own_ipv6(&probe(NatType::Cone, true), &[ip]), Some(ip));
    assert_eq!(own_ipv6(&probe(NatType::Cone, false), &[ip]), None);
    assert_eq!(bind_address(true), SocketAddr::v6([0u8; 16], 0));
    assert_eq!(bind_address(false), SocketAddr::v4(0, 0, 0, 0, 0));
    let eps = own_endpoints(Some(ip), Some(SocketAddr::v4(203, 0, 113, 5, 40000)), 4433);
    assert_eq!(eps.len(), 10);
    assert_eq!(eps[0], Endpoint::new(SocketAddr::v6(ip, 4433), EndpointKind::IPv6));
    assert_eq!(eps[1], Endpoint::new(SocketAddr::v4(203, 0, 113, 5, 4433), EndpointKind::STUN));
    assert_eq!(eps[9], Endpoint::new(SocketAddr::v4(203, 0, 113, 5, 50007), EndpointKind::TSO));
    assert_eq!(tso_addresses(&eps).len(), 8);
    assert!(own_endpoints(None, None, 1).is_empty());
}

#[test]
fn capabilities_follow_the_network() {
    assert!(own_capabilities(&probe(NatType::Cone, false)).has(Capabilities::RELAY_CAPABLE));
    assert!(!own_capabilities(&probe(NatType::Unknown, false)).has(Capabilities::RELAY_CAPABLE));
    let c = own_capabilities(&probe(NatType::APDFSymmetric, true));
    assert!(c.has(Capabilities::RELAY_CAPABLE) && c.has(Capabilities::IPV6_INBOUND));
    assert_eq!(own_capabilities(&probe(NatType::ADFSymmetric, false)).bits, 0);
}

#[test]
fn relay_requests() {
    let a = PeerId([1u8; 32]);
    let c = PeerId([3u8; 32]);
    let req = relay_request(&a, &c);
    assert!(is_relay_request(&req));
    assert_eq!(parse_relay_request(&req), Some((a, c)));
    assert_eq!(parse_relay_request(&req[..req.len() - 1]), None);
    assert!(!is_relay_request(&encode_frame(1, FrameType::Data, b"x")));
    assert!(!is_relay_request(b"hello"));
    let short = encode_frame(1, FrameType::RelayConnect, &[0u8; 63]);
    assert!(is_relay_request(&short));
    assert_eq!(parse_relay_request(&short), None);
}

#[test]
fn error_texts_of_the_daemon() {
    assert_eq!(DaemonError::Config("x".to_string()).text(), "config: x");
    assert_eq!(DaemonError::Identity("x".to_string()).text(), "identity: x");
    assert_eq!(DaemonError::Dht("x".to_string()).text(), "dht: x");
    assert_eq!(
        DaemonError::from_transport(&TransportError::NoPath).text(),
        "transport: no path"
    );
    let core = CoreError::InvalidEndpoint("y".to_string());
    assert_eq!(DaemonError::from_core(&core).text(), format!("transport: {}", core.text()));
}

fn event_of(r: &IpcResponse) -> (String, Option<String>, Option<String>) {
    match r {
        IpcResponse::Event { event, peer_id, data } => (
            event.clone(),
            peer_id.clone(),
            match data {
                Some(IpcData::Via(s)) => Some(s.clone()),
                Some(IpcData::Error(s)) => Some(s.clone()),
                Some(IpcData::Bytes(s)) => Some(s.clone()),
                _ => None,
            },
        ),
        other => panic!("unexpected {other:?}"),
    }
}

#[test]
fn direct_connection() {
    let target = PeerId([2u8; 32]);
    let mut attempt = ConnectAttempt::new(PeerId([1u8; 32]), target, false);
    match attempt.step(ConnectEvent::Done) {
        ConnectAction::Keep(again, r) => {
            assert!(again);
            assert_eq!(
                event_of(&r),
                ("peer_connected".to_string(), Some("02".repeat(8)), None)
            );
        }
        other => panic!("unexpected {other:?}"),
    }
    assert_eq!(attempt.stage(), ConnectStage::Over);
}

#[test]
fn direct_connection_to_a_peer_of_the_directory() {
    let mut attempt = ConnectAttempt::new(PeerId([1u8; 32]), PeerId([2u8; 32]), true);
    match attempt.step(ConnectEvent::Done) {
        ConnectAction::Keep(again, IpcResponse::Event { event, data: Some(IpcData::Via(via)), .. }) => {
            assert!(again);
            assert_eq!(event, "peer_connected");
            assert_eq!(via, "dht");
        }
        other => panic!("unexpected {other:?}"),
    }
}

#[test]
fn relayed_connection() {
    let me = PeerId([1u8; 32]);
    let target = PeerId([2u8; 32]);
    let relay = |n: u8| RelayInfo {
        node_id: PeerId([n; 32]),
        address: SocketAddr::v4(10, 0, 0, n, 1),
        noise_pubkey: [n; 32],
    };
    let mut attempt = ConnectAttempt::new(me, target, false);
    match attempt.step(ConnectEvent::Failed("refused".to_string())) {
        ConnectAction::SeekRelays(r) => {
            assert_eq!(event_of(&r).0, "peer_error");
            assert_eq!(event_of(&r).2, Some("refused".to_string()));
        }
        other => panic!("unexpected {other:?}"),
    }
    match attempt.step(ConnectEvent::Relays(vec![relay(2), relay(5), relay(6)])) {
        ConnectAction::TryRelay(r) => {
            assert_eq!(r.node_id, PeerId([5u8; 32]));
            assert_eq!(relay_endpoint(&r).addr, SocketAddr::v4(10, 0, 0, 5, 1));
        }
        other => panic!("unexpected {other:?}"),
    }
    match attempt.step(ConnectEvent::Failed("x".to_string())) {
        ConnectAction::TryRelay(r) => assert_eq!(r.node_id, PeerId([6u8; 32])),
        other => panic!("unexpected {other:?}"),
    }
    match attempt.step(ConnectEvent::Done) {
        ConnectAction::Send(data) => assert_eq!(parse_relay_request(&data), Some((me, target))),
        other => panic!("unexpected {other:?}"),
    }
    match attempt.step(ConnectEvent::Done) {
        ConnectAction::Keep(again, r) => {
            assert!(!again);
            assert_eq!(event_of(&r).2, Some("relay".to_string()));
        }
        other => panic!("unexpected {other:?}"),
    }
}

#[test]
fn no_path_is_left() {
    let mut attempt = ConnectAttempt::new(PeerId([1u8; 32]), PeerId([2u8; 32]), false);
    attempt.step(ConnectEvent::Failed("x".to_string()));
    match attempt.step(ConnectEvent::Relays(vec![])) {
        ConnectAction::GiveUp(r) => {
            assert_eq!(event_of(&r).2, Some("all paths exhausted".to_string()))
        }
        other => panic!("unexpected {other:?}"),
    }
}

#[test]
fn sessions_are_taken_up_again() {
    let mut s = PeerSession::new(PeerId([7u8; 32]), true);
    match s.step(SessionEvent::Data(b"hello".to_vec())) {
        SessionAction::Tell(r) => {
            assert_eq!(event_of(&r).0, "data");
            assert_eq!(event_of(&r).2, Some("aGVsbG8=".to_string()));
        }
        other => panic!("unexpected {other:?}"),
    }
    let mut next = s.step(SessionEvent::Lost);
    for wait in [1, 3, 9, 27, 60, 60, 60, 60] {
        match next {
            SessionAction::Wait(secs) => assert_eq!(secs, wait),
            other => panic!("unexpected {other:?}"),
        }
        assert!(matches!(s.step(SessionEvent::Waited), SessionAction::Connect));
        next = s.step(SessionEvent::Failed);
    }
    match next {
        SessionAction::End(r) => assert_eq!(event_of(&r).0, "peer_disconnected"),
        other => panic!("unexpected {other:?}"),
    }
    assert_eq!(s.stage(), SessionStage::Over);
}

#[test]
fn sessions_that_come_back_or_end() {
    let mut s = PeerSession::new(PeerId([7u8; 32]), true);
    s.step(SessionEvent::Lost);
    s.step(SessionEvent::Waited);
    match s.step(SessionEvent::Connected) {
        SessionAction::Tell(r) => assert_eq!(event_of(&r).2, Some("reconnect".to_string())),
        other => panic!("unexpected {other:?}"),
    }
    s.step(SessionEvent::Lost);
    assert!(matches!(s.step(SessionEvent::Cancelled), SessionAction::End(_)));
    let mut once = PeerSession::new(PeerId([7u8; 32]), false);
    assert!(matches!(once.step(SessionEvent::Lost), SessionAction::End(_)));
}

#[test]
fn sought_peers() {
    match find_action("ab".to_string(), LookupOutcome::Missing) {
        FindAction::Tell(r) => assert_eq!(
            event_of(&r),
            ("peer_error".to_string(), Some("ab".to_string()), Some("not found".to_string()))
        ),
        other => panic!("unexpected {other:?}"),
    }
    assert!(matches!(
        find_action("ab".to_string(), LookupOutcome::Failed),
        FindAction::Nothing
    ));
    let record = PeerRecord {
        pubkey: [1u8; 32],
        noise_pubkey: [2u8; 32],
        endpoints: vec![],
        capabilities: Capabilities::new(),
        ttl_remaining: 9,
    };
    match find_action("ab".to_string(), LookupOutcome::Found(record)) {
        FindAction::Connect(key, eps) => {
            assert_eq!(key, [2u8; 32]);
            assert!(eps.is_empty());
        }
        other => panic!("unexpected {other:?}"),
    }
}

fn daemon() -> Daemon {
    Daemon::new(
        Identity::from_seed([42u8; 32]),
        probe(NatType::Cone, false),
        None,
        4433,
        vec![],
    )
}

fn only(acts: Vec<DaemonAction>) -> DaemonAction {
    assert_eq!(acts.len(), 1);
    acts.into_iter().next().unwrap()
}

#[test]
fn the_daemon_answers() {
    let mut d = daemon();
    let me = Identity::from_seed([42u8; 32]).peer_id();
    assert_eq!(d.peer_id(), me);
    match only(d.on_command(IpcCommand::GetWhoami, 0, 0)) {
        DaemonAction::AnswerText(s) => assert_eq!(s, me.short_hex()),
        other => panic!("unexpected {other:?}"),
    }
    d.on_connected(PeerId([9u8; 32]));
    match only(d.on_command(IpcCommand::GetStatus, 0, 12)) {
        DaemonAction::AnswerStatus(s) => {
            assert_eq!(s.nat_type, "Cone");
            assert_eq!(s.dht_nodes, 12);
            assert_eq!(s.connected_peers, 1);
            assert_eq!(s.known_peers, 0);
            assert_eq!(s.peers, vec!["09".repeat(8)]);
            assert_eq!(s.port_delta, Some(1));
        }
        other => panic!("unexpected {other:?}"),
    }
    assert!(matches!(only(d.on_command(IpcCommand::Shutdown, 0, 0)), DaemonAction::Stop));
    assert!(d.on_command(IpcCommand::AcceptConnection { connection_id: 1 }, 0, 0).is_empty());
}

#[test]
fn the_daemon_invites_and_connects() {
    let mut d = daemon();
    let uri = match only(d.on_command(IpcCommand::GetInviteCode, 5000, 0)) {
        DaemonAction::AnswerText(s) => s,
        other => panic!("unexpected {other:?}"),
    };
    let code = parse_invite_at(&uri, 6000).unwrap();
    assert_eq!(code.peer_id, d.peer_id());
    assert_eq!(code.endpoints, d.endpoints());
    assert_eq!(code.port_delta_hint, 1);
    assert_eq!((code.mappable_port_start, code.mappable_port_end), (50000, 50007));
    let mut other = Daemon::new(
        Identity::from_seed([43u8; 32]),
        probe(NatType::Cone, false),
        None,
        1,
        vec![],
    );
    let connect = IpcCommand::ConnectPeer { peer_id: None, invite: uri.clone() };
    match only(other.on_command(connect, 6000, 0)) {
        DaemonAction::Connect(c) => assert_eq!(c.peer_id, d.peer_id()),
        act => panic!("unexpected {act:?}"),
    }
    let stored = other.stored_peers();
    assert_eq!(stored.len(), 1);
    assert_eq!(stored[0].peer_id_hex, d.peer_id().to_hex());
    assert_eq!(stored[0].addr, Some(SocketAddr::v4(203, 0, 113, 5, 4433)));
    let late = IpcCommand::ConnectPeer { peer_id: None, invite: uri.clone() };
    assert!(other.on_command(late, 9000, 0).is_empty());
    match only(other.on_command(IpcCommand::TsoPeer { invite: uri }, 6000, 0)) {
        DaemonAction::ConnectTso { peer_id, addrs, mappable_port_start, .. } => {
            assert_eq!(peer_id, d.peer_id());
            assert_eq!(addrs.len(), 8);
            assert_eq!(mappable_port_start, 50000);
        }
        act => panic!("unexpected {act:?}"),
    }
}

#[test]
fn the_daemon_sends_and_disconnects() {
    let mut d = daemon();
    let p = PeerId([9u8; 32]);
    let send = || IpcCommand::SendToPeer { peer_id: p, data: vec![1, 2] };
    assert!(matches!(only(d.on_command(send(), 0, 0)), DaemonAction::AnswerNotConnected));
    d.on_connected(p);
    assert!(matches!(only(d.on_command(send(), 0, 0)), DaemonAction::Deliver(_, _)));
    let acts = d.on_command(IpcCommand::DisconnectPeer { peer_id: p }, 0, 0);
    assert_eq!(acts.len(), 2);
    assert!(matches!(acts[0], DaemonAction::Close(_)));
    match &acts[1] {
        DaemonAction::Tell(r) => assert_eq!(event_of(r).0, "peer_disconnected"),
        other => panic!("unexpected {other:?}"),
    }
    assert!(!d.is_connected(&p));
    assert_eq!(d.on_command(IpcCommand::DisconnectPeer { peer_id: p }, 0, 0).len(), 1);
    let find = IpcCommand::FindPeer { peer_id: p.to_hex() };
    assert!(matches!(only(d.on_command(find, 0, 0)), DaemonAction::Find { .. }));
    assert!(d.on_command(IpcCommand::FindPeer { peer_id: "x".to_string() }, 0, 0).is_empty());
}

#[test]
fn the_daemon_takes_connections() {
    let mut d = daemon();
    let p = PeerId([9u8; 32]);
    match d.on_incoming(p, &relay_request(&p, &PeerId([4u8; 32]))) {
        IncomingAction::Relay(to) => assert_eq!(to, PeerId([4u8; 32])),
        other => panic!("unexpected {other:?}"),
    }
    assert!(!d.is_connected(&p));
    let broken = encode_frame(1, FrameType::RelayConnect, &[0u8; 3]);
    assert!(matches!(d.on_incoming(p, &broken), IncomingAction::Drop));
    match d.on_incoming(p, b"hello") {
        IncomingAction::Keep(r) => assert_eq!(event_of(&r).0, "peer_connected"),
        other => panic!("unexpected {other:?}"),
    }
    assert!(d.is_connected(&p));
    let gone = |id: String| IpcResponse::Event {
        event: "peer_disconnected".to_string(),
        peer_id: Some(id),
        data: None,
    };
    d.on_event(&gone(PeerId([10u8; 32]).short_hex()));
    assert!(d.is_connected(&p));
    d.on_event(&gone(p.to_hex()));
    assert!(!d.is_connected(&p));
}

#[test]
fn a_lost_peer_is_no_longer_connected() {
    let mut d = daemon();
    let p = PeerId([9u8; 32]);
    let q = PeerId([10u8; 32]);
    d.on_connected(p);
    d.on_connected(q);
    d.on_event(&peer_connected(&p, ""));
    assert!(d.is_connected(&p));
    d.on_event(&peer_disconnected(&p));
    assert!(!d.is_connected(&p));
    assert!(d.is_connected(&q));
    let send = |peer_id| IpcCommand::SendToPeer { peer_id, data: vec![1] };
    assert!(matches!(d.on_command(send(p), 0, 0)[0], DaemonAction::AnswerNotConnected));
    assert!(matches!(d.on_command(send(q), 0, 0)[0], DaemonAction::Deliver(..)));
}

#[test]
fn the_heart_beats() {
    let mut d = daemon();
    let ifaces = [SocketAddr::v4(10, 0, 0, 1, 0), SocketAddr::v4(127, 0, 0, 1, 0)];
    let acts = d.on_heartbeat(&ifaces);
    assert_eq!(acts.len(), 4);
    assert!(matches!(acts[0], HeartbeatAction::StoreSelf));
    assert!(matches!(acts[1], HeartbeatAction::SavePeers(_)));
    assert!(matches!(acts[2], HeartbeatAction::StoreSelf));
    assert!(matches!(acts[3], HeartbeatAction::SaveRoutes));
    assert_eq!(d.on_heartbeat(&ifaces).len(), 3);
}

#[test]
fn the_file_of_peers_is_signed() {
    let d = daemon();
    let sig = d.sign_peers(b"[]");
    let identity = Identity::from_seed([42u8; 32]);
    assert_eq!(sig, hex::encode(identity.sign(b"[]")));
    assert_eq!(sig.len(), 128);
    assert_eq!(d.public_key(), *identity.public_key());
    assert_eq!(d.noise_pubkey(), identity.noise_keypair().1);
    assert_eq!(d.capabilities().bits, Capabilities::RELAY_CAPABLE);
}
