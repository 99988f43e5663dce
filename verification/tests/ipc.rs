use lain::base64_text::Base64Error;
use lain::cli::{
    answered_invite, line_of, monitor_line, refused, server_line, startup_answer, startup_notice,
    startup_step, status_fields, status_lines, status_of, suggest_tso, wait_step, whoami_line,
    with_scheme, ServerLine, StartupEvent, StartupStep, StatusFields, Wait, WaitStep, STARTUP_SECS,
};
use lain::http::{head_line, response, HeadLine, RequestHead};
use lain::ipc::{
    answer_sent, answer_status, answer_text, data_event, dispatch, may_talk, parse_error,
    DaemonStatus, IpcCommand, IpcConfig, IpcData, IpcError, IpcReply, IpcRequest, IpcResponse,
    IpcServer, SendOutcome,
};
use lain::peer::PeerId;

fn ok_text(r: &IpcResponse) -> String {
    match r {
        IpcResponse::Success { message: Some(m), data: None } => m.clone(),
        other => panic!("unexpected {other:?}"),
    }
}

fn error_of(r: &IpcResponse) -> (String, String) {
    match r {
        IpcResponse::Error { code, message } => (code.clone(), message.clone()),
        other => panic!("unexpected {other:?}"),
    }
}

fn now(reply: IpcReply) -> IpcResponse {
    match reply {
        IpcReply::Now(r) => r,
        other => panic!("unexpected {other:?}"),
    }
}

#[test]
fn requests_to_connect() {
    let (cmd, reply) =
        dispatch(IpcRequest::Connect { peer_id: None, invite: "lain://x".to_string() });
    assert!(matches!(cmd, Some(IpcCommand::ConnectPeer { peer_id: None, invite }) if invite == "lain://x"));
    assert_eq!(ok_text(&now(reply)), "connecting: lain://x");
    let (cmd, reply) = dispatch(IpcRequest::Tso { invite: "i".to_string() });
    assert!(matches!(cmd, Some(IpcCommand::TsoPeer { .. })));
    assert_eq!(ok_text(&now(reply)), "tso: i");
    let (cmd, reply) = dispatch(IpcRequest::FindPeer { peer_id: "p".to_string() });
    assert!(matches!(cmd, Some(IpcCommand::FindPeer { .. })));
    assert_eq!(ok_text(&now(reply)), "finding: p");
}

#[test]
fn requests_for_the_daemon() {
    let (cmd, reply) = dispatch(IpcRequest::Subscribe);
    assert!(cmd.is_none());
    assert_eq!(ok_text(&now(reply)), "subscribed");
    let (cmd, reply) = dispatch(IpcRequest::Shutdown);
    assert!(matches!(cmd, Some(IpcCommand::Shutdown)));
    assert_eq!(ok_text(&now(reply)), "shutting down");
    assert!(matches!(
        dispatch(IpcRequest::Whoami),
        (Some(IpcCommand::GetWhoami), IpcReply::AwaitText)
    ));
    assert!(matches!(
        dispatch(IpcRequest::GetInvite),
        (Some(IpcCommand::GetInviteCode), IpcReply::AwaitText)
    ));
    assert!(matches!(
        dispatch(IpcRequest::ListPeers),
        (Some(IpcCommand::GetStatus), IpcReply::AwaitStatus)
    ));
    let (cmd, reply) = dispatch(IpcRequest::Accept { connection_id: 4 });
    assert!(matches!(cmd, Some(IpcCommand::AcceptConnection { connection_id: 4 })));
    assert_eq!(ok_text(&now(reply)), "accepted");
    let (cmd, reply) = dispatch(IpcRequest::Reject { connection_id: 5 });
    assert!(matches!(cmd, Some(IpcCommand::RejectConnection { connection_id: 5 })));
    assert_eq!(ok_text(&now(reply)), "rejected");
}

#[test]
fn requests_to_send() {
    let id = PeerId([0xA1u8; 32]);
    let (cmd, reply) =
        dispatch(IpcRequest::Send { peer_id: id.to_hex(), data: "aGVsbG8=".to_string() });
    match cmd {
        Some(IpcCommand::SendToPeer { peer_id, data }) => {
            assert_eq!(peer_id, id);
            assert_eq!(data, b"hello");
        }
        other => panic!("unexpected {other:?}"),
    }
    assert!(matches!(reply, IpcReply::AwaitSent { .. }));
    let (cmd, reply) =
        dispatch(IpcRequest::Send { peer_id: "invalid".to_string(), data: "aGVsbG8=".to_string() });
    assert!(cmd.is_none());
    assert_eq!(
        error_of(&now(reply)),
        ("INVALID_ID".to_string(), "invalid PeerID: invalid".to_string())
    );
    let (cmd, reply) =
        dispatch(IpcRequest::Send { peer_id: id.to_hex(), data: "!!base64??".to_string() });
    assert!(cmd.is_none());
    assert_eq!(
        error_of(&now(reply)),
        ("INVALID_DATA".to_string(), "base64 decode: Invalid symbol 33, offset 0.".to_string())
    );
}

#[test]
fn requests_to_disconnect() {
    let id = PeerId([0xA1u8; 32]);
    let (cmd, reply) = dispatch(IpcRequest::Disconnect { peer_id: id.to_hex() });
    assert!(matches!(cmd, Some(IpcCommand::DisconnectPeer { peer_id }) if peer_id == id));
    assert_eq!(ok_text(&now(reply)), "disconnected");
    let (cmd, reply) = dispatch(IpcRequest::Disconnect { peer_id: "invalid".to_string() });
    assert!(cmd.is_none());
    assert_eq!(error_of(&now(reply)).0, "INVALID_ID");
}

#[test]
fn answers() {
    assert_eq!(ok_text(&answer_text(Some("a".to_string()))), "a");
    assert_eq!(error_of(&answer_text(None)), ("TIMEOUT".to_string(), "daemon busy".to_string()));
    assert_eq!(ok_text(&answer_sent("p", Some(SendOutcome::Sent))), "sent");
    assert_eq!(
        error_of(&answer_sent("p", Some(SendOutcome::NotConnected))),
        ("NOT_CONNECTED".to_string(), "no active connection to p".to_string())
    );
    assert_eq!(
        error_of(&answer_sent("p", Some(SendOutcome::Failed("open: x".to_string())))),
        ("SEND_FAILED".to_string(), "open: x".to_string())
    );
    assert_eq!(error_of(&answer_sent("p", None)).0, "TIMEOUT");
    assert_eq!(error_of(&answer_status(None)).0, "TIMEOUT");
    let status = DaemonStatus {
        peer_id: "p".to_string(),
        nat_type: "Cone".to_string(),
        ipv6: false,
        ipv6_addr: None,
        port_delta: None,
        stun_rtt_ms: None,
        dht_nodes: 1,
        known_peers: 2,
        connected_peers: 3,
        peers: vec![],
    };
    match answer_status(Some(status)) {
        IpcResponse::Success { message: None, data: Some(IpcData::Status(s)) } => {
            assert_eq!(s.dht_nodes, 1)
        }
        other => panic!("unexpected {other:?}"),
    }
    assert_eq!(
        error_of(&parse_error("bad".to_string())),
        ("PARSE".to_string(), "bad".to_string())
    );
    assert_eq!(IpcError::Listener("x".to_string()).text(), "listener error: x");
}

#[test]
fn data_comes_in_base64() {
    match data_event(&PeerId([1u8; 32]), &[0, 255, 16]) {
        IpcResponse::Event { event, peer_id, data: Some(IpcData::Bytes(b)) } => {
            assert_eq!(event, "data");
            assert_eq!(peer_id, Some("01".repeat(8)));
            assert_eq!(b, "AP8Q");
            let id = PeerId([2u8; 32]).to_hex();
            match dispatch(IpcRequest::Send { peer_id: id, data: b }).0 {
                Some(IpcCommand::SendToPeer { data, .. }) => assert_eq!(data, vec![0, 255, 16]),
                other => panic!("unexpected {other:?}"),
            }
        }
        other => panic!("unexpected {other:?}"),
    }
}

#[test]
fn base64_errors() {
    let id = PeerId([2u8; 32]).to_hex();
    let why = |data: &str| {
        let (_, reply) =
            dispatch(IpcRequest::Send { peer_id: id.clone(), data: data.to_string() });
        error_of(&now(reply)).1
    };
    assert_eq!(why("A"), "base64 decode: Invalid input length: 1");
    assert_eq!(why("AB=="), "base64 decode: Invalid last symbol 66, offset 1.");
    assert_eq!(why("AA"), "base64 decode: Invalid padding");
    assert_eq!(Base64Error::InvalidPadding.text(), "Invalid padding");
}

#[test]
fn incoming_connections_are_numbered() {
    let mut server = IpcServer::new(IpcConfig::default());
    let (a, r) = server.notify_incoming(PeerId([1u8; 32]));
    let (b, _) = server.notify_incoming(PeerId([1u8; 32]));
    assert_eq!((a, b), (1, 2));
    assert!(matches!(
        r,
        IpcResponse::Event { data: Some(IpcData::ConnectionId(1)), .. }
    ));
    server.next_conn_id = u64::MAX;
    assert_eq!(server.notify_incoming(PeerId([1u8; 32])).0, u64::MAX);
    assert_eq!(server.notify_incoming(PeerId([1u8; 32])).0, 0);
}

#[test]
fn who_may_talk() {
    assert!(may_talk(Some(0), 1000));
    assert!(may_talk(Some(1000), 1000));
    assert!(!may_talk(Some(1001), 1000));
    assert!(may_talk(None, 1000));
}

#[test]
fn heads_of_requests() {
    assert_eq!(head_line("\r\n"), HeadLine::End);
    assert_eq!(head_line("Content-Length: 12\r\n"), HeadLine::ContentLength(12));
    assert_eq!(head_line("  CONTENT-LENGTH:+7 \r\n"), HeadLine::ContentLength(7));
    assert_eq!(head_line("content-length: -7"), HeadLine::ContentLength(0));
    assert_eq!(head_line("content-length: \u{a0}3\u{3000}"), HeadLine::ContentLength(3));
    assert_eq!(
        head_line("content-length: 99999999999999999999999999"),
        HeadLine::ContentLength(0)
    );
    assert_eq!(head_line("content-length:"), HeadLine::ContentLength(0));
    assert_eq!(head_line("content-length:+"), HeadLine::ContentLength(0));
    assert_eq!(head_line("Host: x"), HeadLine::Other);
    let mut head = RequestHead::new();
    assert!(!head.take_line("Host: x\r\n"));
    assert!(!head.take_line("Content-Length: 70000\r\n"));
    assert!(head.take_line("\r\n"));
    assert_eq!(head.content_length, 70000);
    assert_eq!(head.body_len(), 65536);
}

#[test]
fn http_answers() {
    assert_eq!(
        response("{\"\u{e9}\"}"),
        "HTTP/1.1 200 OK\r\nContent-Type: application/json\r\nContent-Length: 6\r\n\r\n{\"\u{e9}\"}"
    );
}

fn line() -> ServerLine {
    ServerLine {
        kind: None,
        message: None,
        event: None,
        peer_id: None,
        error: None,
        via: None,
        bytes: None,
    }
}

fn event(name: &str) -> ServerLine {
    let mut l = line();
    l.event = Some(name.to_string());
    l.peer_id = Some("ffe4d9a8".to_string());
    l
}

#[test]
fn schemes() {
    assert_eq!(with_scheme("abc"), "lain://abc");
    assert_eq!(with_scheme("lain://abc"), "lain://abc");
    assert_eq!(with_scheme(""), "lain://");
}

#[test]
fn refusals() {
    assert!(refused(Wait::Connect, &line()).is_none());
    let mut l = line();
    l.kind = Some("Error".to_string());
    assert_eq!(refused(Wait::Connect, &l).unwrap(), "cannot connect: unknown error");
    assert_eq!(refused(Wait::Find, &l).unwrap(), "find error: ?");
    l.message = Some("busy".to_string());
    assert_eq!(refused(Wait::Tso, &l).unwrap(), "TSO error: busy");
}

#[test]
fn waiting() {
    let text = |s: WaitStep| match s {
        WaitStep::Done(t) => t,
        WaitStep::TimedOut { said, .. } => said,
        WaitStep::GoOn => String::new(),
    };
    let mut up = event("peer_connected");
    assert_eq!(text(wait_step(Wait::Connect, 1, Some(&up))), "connected to ffe4d9a8");
    assert_eq!(text(wait_step(Wait::Tso, 1, Some(&up))), "connected to ffe4d9a8 via TSO");
    up.via = Some("x".to_string());
    assert_eq!(text(wait_step(Wait::Tso, 1, Some(&up))), "connected to ffe4d9a8 via x");
    let mut down = event("peer_error");
    assert_eq!(text(wait_step(Wait::Connect, 1, Some(&down))), "connection failed: ?");
    down.error = Some("e".to_string());
    assert_eq!(text(wait_step(Wait::Tso, 1, Some(&down))), "TSO failed: e");
    assert_eq!(text(wait_step(Wait::Find, 1, Some(&down))), "could not connect: e");
    assert!(matches!(wait_step(Wait::Find, 15, None), WaitStep::GoOn));
    assert_eq!(text(wait_step(Wait::Find, 16, Some(&up))), "not found");
    assert!(matches!(wait_step(Wait::Connect, 130, Some(&event("data"))), WaitStep::GoOn));
    assert!(text(wait_step(Wait::Connect, 131, None)).starts_with("timeout"));
    assert!(text(wait_step(Wait::Tso, 111, None)).starts_with("TSO timeout"));
    let hint = |s: WaitStep| matches!(s, WaitStep::TimedOut { suggest: true, .. });
    assert!(hint(wait_step(Wait::Connect, 131, None)));
    assert!(!hint(wait_step(Wait::Tso, 111, None)));
    assert!(!hint(wait_step(Wait::Find, 16, None)));
    assert_eq!(suggest_tso("lain://me")[2], "     lain://me");
}

#[test]
fn watching() {
    assert_eq!(monitor_line(&event("peer_connected")).unwrap(), "[connected] ffe4d9a8");
    assert_eq!(monitor_line(&event("peer_disconnected")).unwrap(), "[disconnected] ffe4d9a8");
    assert_eq!(monitor_line(&event("peer_error")).unwrap(), "[peer_error] ffe4d9a8");
    let mut data = event("data");
    assert!(monitor_line(&data).is_none());
    data.bytes = Some("aGVsbG8=".to_string());
    assert_eq!(monitor_line(&data).unwrap(), "[data] from ffe4d9a8 (5 bytes)");
    data.bytes = Some("?".to_string());
    assert!(monitor_line(&data).is_none());
    assert!(monitor_line(&line()).is_none());
}

#[test]
fn status_of_the_daemon() {
    let lines = status_lines(&StatusFields {
        peer_id: Some("f8df8b59c08df278".to_string()),
        nat_type: Some("APDFSymmetric".to_string()),
        ipv6: true,
        ipv6_addr: Some("2001:db8::1".to_string()),
        port_delta: Some(1),
        stun_rtt_ms: Some(45),
        dht_nodes: 3,
        known_peers: 5,
        connected_peers: 2,
        peers: vec!["aa".to_string()],
    });
    assert_eq!(
        lines,
        vec![
            "PeerID:    f8df8b59c08df278",
            "NAT:       APDFSymmetric",
            "IPv6:      2001:db8::1",
            "Port:      port-preserving (delta=1)",
            "STUN RTT:  45ms",
            "DHT nodes: 3",
            "Known:     5",
            "Connected: 2",
            "Peers:",
            "  aa",
        ]
    );
    let short = status_lines(&StatusFields {
        peer_id: None,
        nat_type: None,
        ipv6: false,
        ipv6_addr: None,
        port_delta: None,
        stun_rtt_ms: None,
        dht_nodes: 0,
        known_peers: 0,
        connected_peers: 0,
        peers: vec![],
    });
    assert_eq!(short.len(), 6);
    assert_eq!(short[0], "PeerID:    ?");
    assert_eq!(short[2], "IPv6:      no");
}

#[test]
fn starting() {
    assert!(startup_notice(3).is_none());
    assert!(startup_notice(4).is_some());
    assert!(startup_answer(None).is_none());
    let mut l = line();
    l.kind = Some("Error".to_string());
    assert!(startup_answer(Some(&l)).is_none());
    l.kind = Some("Ok".to_string());
    l.message = Some("f8df".to_string());
    assert_eq!(startup_answer(Some(&l)).unwrap()[1], "PeerID: f8df");
}

#[test]
fn a_daemon_is_waited_for() {
    for tries in 0..STARTUP_SECS - 1 {
        match startup_step(tries, StartupEvent::Silent) {
            StartupStep::GoOn(notice) => assert_eq!(notice.is_some(), tries == 3),
            other => panic!("unexpected {other:?}"),
        }
    }
    let failed = |tries, event| match startup_step(tries, event) {
        StartupStep::Failed(s) => s,
        other => panic!("unexpected {other:?}"),
    };
    assert_eq!(failed(19, StartupEvent::Silent), "daemon failed to start (timeout)");
    assert_eq!(
        failed(0, StartupEvent::Exited("exit status: 1".to_string())),
        "daemon exited unexpectedly (code: exit status: 1)"
    );
    assert_eq!(failed(0, StartupEvent::Broken("gone".to_string())), "daemon process error: gone");
    let mut l = line();
    l.kind = Some("Error".to_string());
    assert!(matches!(startup_step(0, StartupEvent::Answered(l)), StartupStep::GoOn(None)));
    let mut l = line();
    l.kind = Some("Ok".to_string());
    l.message = Some("f8df".to_string());
    match startup_step(19, StartupEvent::Answered(l)) {
        StartupStep::Done(lines) => assert_eq!(lines[1], "PeerID: f8df"),
        other => panic!("unexpected {other:?}"),
    }
}

#[test]
fn lines_of_the_daemon() {
    let l = server_line("{\"type\":\"Error\",\"message\":\"a \\\"b\\\"\"}\n").unwrap();
    assert_eq!(l.kind.as_deref(), Some("Error"));
    assert_eq!(l.message.as_deref(), Some("a \"b\""));
    assert!(l.event.is_none() && l.peer_id.is_none());
    assert!(l.error.is_none() && l.via.is_none() && l.bytes.is_none());
    assert_eq!(whoami_line(&l), "PeerID: a \"b\"");
    assert_eq!(answered_invite(&l), "a \"b\"");
    let l = server_line(
        "{\"event\":\"data\",\"peer_id\":\"ff\",\"message\":3,\
         \"data\":{\"error\":\"e\",\"via\":\"v\",\"bytes\":\"aGk=\"}}",
    )
    .unwrap();
    assert_eq!(l.event.as_deref(), Some("data"));
    assert_eq!(l.peer_id.as_deref(), Some("ff"));
    assert!(l.message.is_none() && l.kind.is_none());
    assert_eq!(l.error.as_deref(), Some("e"));
    assert_eq!(l.via.as_deref(), Some("v"));
    assert_eq!(l.bytes.as_deref(), Some("aGk="));
    assert_eq!(whoami_line(&l), "PeerID: ?");
    assert_eq!(answered_invite(&l), "?");
    assert_eq!(monitor_line(&l).unwrap(), "[data] from ff (2 bytes)");
    for other in ["", "{", "lain"] {
        assert!(server_line(other).is_none());
        assert!(status_fields(other).is_none());
    }
    let l = line_of(&serde_json::Value::from(7));
    assert!(l.kind.is_none() && l.bytes.is_none());
}

#[test]
fn status_lines_of_the_daemon() {
    let s = status_fields(
        "{\"type\":\"Success\",\"data\":{\"peer_id\":\"f8\",\"nat_type\":\"Cone\",\"ipv6\":true,\
         \"ipv6_addr\":\"::1\",\"port_delta\":2,\"stun_rtt_ms\":45,\"dht_nodes\":3,\
         \"known_peers\":5,\"connected_peers\":2,\"peers\":[\"aa\",4,\"bb\"]}}",
    )
    .unwrap();
    assert_eq!(s.peer_id.as_deref(), Some("f8"));
    assert_eq!(s.nat_type.as_deref(), Some("Cone"));
    assert!(s.ipv6);
    assert_eq!(s.ipv6_addr.as_deref(), Some("::1"));
    assert_eq!((s.port_delta, s.stun_rtt_ms), (Some(2), Some(45)));
    assert_eq!((s.dht_nodes, s.known_peers, s.connected_peers), (3, 5, 2));
    assert_eq!(s.peers, vec!["aa", "bb"]);
    let s = status_fields("{\"data\":{\"ipv6\":false,\"port_delta\":-1,\"dht_nodes\":\"3\"}}").unwrap();
    assert!(s.peer_id.is_none() && s.nat_type.is_none() && s.ipv6_addr.is_none() && !s.ipv6);
    assert_eq!((s.port_delta, s.stun_rtt_ms), (None, None));
    assert_eq!((s.dht_nodes, s.known_peers, s.connected_peers), (0, 0, 0));
    assert!(s.peers.is_empty());
    assert!(status_of(&serde_json::Value::Null).peers.is_empty());
}
