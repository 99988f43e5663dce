use lain::error::CoreError;
use lain::frame::{encode_frame, encode_handshake_frame, FrameType};
use lain::identity::Identity;
use lain::noise::{
    payload_peer_id, CryptoProvider, NoiseHandshake, NoiseProvider, NoiseTransport,
};
use lain::peer::PeerId;
use lain::transport::{
    parse_tso_info, race_step, receive_stream, tcp_message, tcp_payload_len, tcp_receive, tso_info,
    InitiatorHandshake, PeekBuffer, RaceAction, RaceEvent, ResponderHandshake, TransportError,
    TsoAction, TsoEvent, TsoHandshake,
};

#[test]
fn test_handshake_with_peer_id() {
    let local = PeerId([1u8; 32]);
    let remote = PeerId([2u8; 32]);

    let pa = NoiseProvider::new([3u8; 32]);
    let pb = NoiseProvider::new([4u8; 32]);
    let b_pk = pb.local_pubkey();

    let mut init = pa.new_initiator(&b_pk).unwrap();
    let mut resp = pb.new_responder().unwrap();

    let msg1 = init.write_message(&local).unwrap();
    assert_eq!(resp.read_message(&msg1).unwrap(), local);

    let msg2 = resp.write_message(&remote).unwrap();
    assert_eq!(init.read_message(&msg2).unwrap(), remote);
    assert_eq!(resp.remote_pubkey(), Some(pa.local_pubkey()));
    assert_eq!(init.remote_pubkey(), Some(b_pk));

    let mut is = init.into_transport().unwrap();
    let mut rs = resp.into_transport().unwrap();
    let ct = is.encrypt(b"hello").unwrap();
    assert_ne!(ct, b"hello");
    assert_eq!(rs.decrypt(&ct).unwrap(), b"hello");
}

#[test]
fn test_local_pubkey_is_static() {
    let pa = NoiseProvider::new([5u8; 32]);
    assert_eq!(pa.local_pubkey(), pa.local_pubkey());
}

#[test]
fn local_pubkey_is_that_of_the_identity() {
    let identity = Identity::from_seed([9u8; 32]);
    let (secret, public) = identity.noise_keypair();
    assert_eq!(NoiseProvider::new(secret).local_pubkey(), public);
    assert_ne!(secret, public);
}

#[test]
fn handshake_errors() {
    let pa = NoiseProvider::new([3u8; 32]);
    let pb = NoiseProvider::new([4u8; 32]);
    let mut resp = pb.new_responder().unwrap();
    assert!(resp.read_message(&[0u8; 10]).is_err());
    let init = pa.new_initiator(&pb.local_pubkey()).unwrap();
    assert!(init.into_transport().is_err());
    assert!(payload_peer_id(&[1u8; 31]).is_err());
    assert_eq!(payload_peer_id(&[8u8; 32]).unwrap(), PeerId([8u8; 32]));
}

#[test]
fn peek_returns_buffered_first() {
    let mut inner = vec![b"second".to_vec(), b"first".to_vec()];
    let mut peek = PeekBuffer::new(b"buffered".to_vec());
    let mut recv = || match peek.take() {
        Some(m) => Some(m),
        None => inner.pop().map(|d| (FrameType::Data, d)),
    };
    assert_eq!(recv(), Some((FrameType::Data, b"buffered".to_vec())));
    assert_eq!(recv(), Some((FrameType::Data, b"first".to_vec())));
    assert_eq!(recv(), Some((FrameType::Data, b"second".to_vec())));
    assert_eq!(recv(), None);
}

#[test]
fn streams_are_taken_apart() {
    assert_eq!(receive_stream(vec![]), None);
    assert_eq!(receive_stream(encode_frame(0, FrameType::Headers, b"{}")), None);
    assert_eq!(
        receive_stream(encode_frame(4, FrameType::Data, b"payload")),
        Some((FrameType::Data, b"payload".to_vec()))
    );
    assert_eq!(
        receive_stream(b"no frame".to_vec()),
        Some((FrameType::Data, b"no frame".to_vec()))
    );
}

#[test]
fn tcp_lengths() {
    assert_eq!(tcp_payload_len(&[0, 0, 0, 0, 0, 1, 2, 3]), 0x010203);
}

#[test]
fn framed_handshake() {
    let a = NoiseProvider::new([3u8; 32]);
    let b = NoiseProvider::new([4u8; 32]);
    let (start, first) =
        InitiatorHandshake::start(&a, &b.local_pubkey(), &PeerId([1u8; 32])).unwrap();
    let mut header = [0u8; 8];
    header.copy_from_slice(&first[..8]);
    let len = ResponderHandshake::request_len(&header).unwrap();
    assert_eq!(len, first.len() - 8);
    let (other, who, key, answer) =
        ResponderHandshake::respond(&b, &first[8..], &PeerId([2u8; 32]), 1).unwrap();
    assert_eq!(who, PeerId([1u8; 32]));
    assert_eq!(key, Some(a.local_pubkey()));
    let mut header = [0u8; 8];
    header.copy_from_slice(&answer[..8]);
    assert_eq!(InitiatorHandshake::answer_len(&header).unwrap(), answer.len() - 8);
    let done = start.finish(&answer[8..]).unwrap();
    assert_eq!(done.peer_id, PeerId([2u8; 32]));
    assert_eq!(done.noise_pubkey, Some(b.local_pubkey()));
    let mut here = done.session;
    let mut there = other.finish().unwrap();
    let ct = there.encrypt(b"back").unwrap();
    assert_eq!(here.decrypt(&ct).unwrap(), b"back");
}

#[test]
fn handshake_headers_are_checked() {
    let mut bad = [0u8; 8];
    assert!(matches!(
        InitiatorHandshake::answer_len(&bad),
        Err(TransportError::Noise(_))
    ));
    let good = encode_handshake_frame(1, &[0u8; 5]);
    bad.copy_from_slice(&good[..8]);
    assert_eq!(InitiatorHandshake::answer_len(&bad).unwrap(), 5);
    bad[3] = 9;
    assert_eq!(
        InitiatorHandshake::answer_len(&bad).unwrap_err().text(),
        "noise: protocol version mismatch: local=1, remote=9"
    );
}

#[test]
fn error_texts() {
    assert_eq!(TransportError::Connect("x".to_string()).text(), "connect: x");
    assert_eq!(TransportError::Io("x".to_string()).text(), "io: x");
    assert_eq!(TransportError::NoPath.text(), "no path");
    match TransportError::NoPath.to_core() {
        CoreError::InvalidEndpoint(s) => assert_eq!(s, "no path"),
        other => panic!("unexpected {other:?}"),
    }
}

#[test]
fn simultaneous_info() {
    let info = tso_info(&PeerId([1u8; 32]), &[2u8; 32]);
    let mut bytes = [0u8; 64];
    bytes.copy_from_slice(&info);
    assert_eq!(parse_tso_info(&bytes), (PeerId([1u8; 32]), [2u8; 32]));
}

/// Runs both sides of a simultaneous handshake against each other.
fn run_tso(a_id: PeerId, a_wants: PeerId, b_id: PeerId, b_wants: PeerId) -> (TsoAction, TsoAction) {
    let (a, a_act) = TsoHandshake::start(a_id, a_wants, [3u8; 32]);
    let (b, b_act) = TsoHandshake::start(b_id, b_wants, [4u8; 32]);
    let mut sides = [Some(a), Some(b)];
    let mut acts = [Some(a_act), Some(b_act)];
    let mut wires: [Vec<u8>; 2] = [Vec::new(), Vec::new()];
    for _ in 0..40 {
        for i in 0..2 {
            let event = match acts[i].take() {
                Some(TsoAction::Send(data, _)) => {
                    wires[1 - i].extend_from_slice(&data);
                    TsoEvent::Sent
                }
                Some(TsoAction::Read(n, limit)) => {
                    if wires[i].len() < n {
                        acts[i] = Some(TsoAction::Read(n, limit));
                        continue;
                    }
                    let rest = wires[i].split_off(n);
                    TsoEvent::Received(std::mem::replace(&mut wires[i], rest))
                }
                over => {
                    acts[i] = over;
                    continue;
                }
            };
            let (next, act) = sides[i].take().unwrap().step(event);
            sides[i] = Some(next);
            acts[i] = Some(act);
        }
    }
    (acts[0].take().unwrap(), acts[1].take().unwrap())
}

#[test]
fn tso_handshake() {
    let a = PeerId([1u8; 32]);
    let b = PeerId([2u8; 32]);
    match run_tso(a, b, b, a) {
        (TsoAction::Done(x, mut sx), TsoAction::Done(y, mut sy)) => {
            assert_eq!(x, b);
            assert_eq!(y, a);
            let ct = sx.encrypt(b"tso works").unwrap();
            assert_eq!(sy.decrypt(&ct).unwrap(), b"tso works");
            let back = sy.encrypt(b"both ways").unwrap();
            assert_eq!(sx.decrypt(&back).unwrap(), b"both ways");
        }
        other => panic!("unexpected {other:?}"),
    }
}

#[test]
fn tso_handshake_with_another_peer_fails() {
    let a = PeerId([1u8; 32]);
    let b = PeerId([2u8; 32]);
    let c = PeerId([7u8; 32]);
    assert!(matches!(run_tso(a, c, b, a).0, TsoAction::Failed(_)));
}

/// Two ends of a connection.
fn connected() -> (lain::noise::Session, lain::noise::Session) {
    let pa = NoiseProvider::new([3u8; 32]);
    let pb = NoiseProvider::new([4u8; 32]);
    let mut init = pa.new_initiator(&pb.local_pubkey()).unwrap();
    let mut resp = pb.new_responder().unwrap();
    let msg1 = init.write_message(&PeerId([1u8; 32])).unwrap();
    resp.read_message(&msg1).unwrap();
    let msg2 = resp.write_message(&PeerId([2u8; 32])).unwrap();
    init.read_message(&msg2).unwrap();
    (init.into_transport().unwrap(), resp.into_transport().unwrap())
}

#[test]
fn messages_come_in_turn_and_have_their_lengths() {
    let pa = NoiseProvider::new([3u8; 32]);
    let pb = NoiseProvider::new([4u8; 32]);
    let mut init = pa.new_initiator(&pb.local_pubkey()).unwrap();
    let mut resp = pb.new_responder().unwrap();
    assert!(resp.write_message(&PeerId([2u8; 32])).is_err());
    assert!(init.read_message(&[0u8; 128]).is_err());
    let msg1 = init.write_message(&PeerId([1u8; 32])).unwrap();
    assert_eq!(msg1.len(), 128);
    assert!(init.write_message(&PeerId([1u8; 32])).is_err());
    assert_eq!(resp.remote_pubkey(), None);
    resp.read_message(&msg1).unwrap();
    let msg2 = resp.write_message(&PeerId([2u8; 32])).unwrap();
    assert_eq!(msg2.len(), 80);
    assert!(resp.write_message(&PeerId([2u8; 32])).is_err());
    init.read_message(&msg2).unwrap();
    assert!(init.read_message(&msg2).is_err());
}

#[test]
fn first_messages_are_for_the_holder_of_the_key() {
    let pa = NoiseProvider::new([3u8; 32]);
    let pb = NoiseProvider::new([4u8; 32]);
    let pc = NoiseProvider::new([5u8; 32]);
    let mut init = pa.new_initiator(&pb.local_pubkey()).unwrap();
    let msg1 = init.write_message(&PeerId([1u8; 32])).unwrap();
    assert!(pc.new_responder().unwrap().read_message(&msg1).is_err());
    let mut once = pb.new_responder().unwrap();
    let mut again = pb.new_responder().unwrap();
    assert_eq!(once.read_message(&msg1).unwrap(), PeerId([1u8; 32]));
    assert_eq!(again.read_message(&msg1).unwrap(), PeerId([1u8; 32]));
}

#[test]
fn connections_count_their_messages() {
    let (mut a, mut b) = connected();
    let one = a.encrypt(b"one").unwrap();
    let two = a.encrypt(b"one").unwrap();
    assert_ne!(one, two);
    assert_eq!(one.len(), 19);
    assert!(b.decrypt(&two).is_err());
    assert_eq!(b.decrypt(&one).unwrap(), b"one");
    assert_eq!(b.decrypt(&two).unwrap(), b"one");
    assert!(b.decrypt(&two).is_err());
    assert!(b.decrypt(&[0u8; 15]).is_err());
    assert!(a.encrypt(&vec![0u8; 65519]).is_ok());
    assert!(a.encrypt(&vec![0u8; 65520]).is_err());
}

#[test]
fn tcp_messages_come_through() {
    let (mut a, mut b) = connected();
    for data in [&b"hello"[..], &b""[..], &b"again"[..]] {
        let frame = tcp_message(&mut a, data).unwrap();
        let mut header = [0u8; 8];
        header.copy_from_slice(&frame[..8]);
        assert_eq!(tcp_payload_len(&header), frame.len() - 8);
        let got = tcp_receive(&mut b, &frame[8..]).unwrap();
        if data.is_empty() {
            assert_eq!(got, None);
        } else {
            assert_eq!(got.unwrap(), data);
        }
    }
    let frame = tcp_message(&mut b, b"back").unwrap();
    assert_eq!(tcp_receive(&mut a, &frame[8..]).unwrap().unwrap(), b"back");
    assert!(tcp_receive(&mut a, &frame[8..]).is_err());
    assert!(tcp_message(&mut a, &vec![0u8; 65520]).is_err());
}

#[test]
fn frames_on_streams_come_through() {
    for kind in [FrameType::Data, FrameType::RelayData, FrameType::Ping] {
        let sent = encode_frame(2, kind, b"payload");
        assert_eq!(receive_stream(sent), Some((kind, b"payload".to_vec())));
    }
    assert_eq!(receive_stream(encode_frame(1, FrameType::Headers, b"{}")), None);
}

#[test]
fn the_first_connection_to_the_peer_is_kept() {
    let wanted = PeerId([7u8; 32]);
    assert!(matches!(race_step(&wanted, RaceEvent::Connected(wanted)), RaceAction::Keep));
    let other = PeerId([8u8; 32]);
    assert!(matches!(race_step(&wanted, RaceEvent::Connected(other)), RaceAction::Close));
    assert!(matches!(race_step(&wanted, RaceEvent::Failed), RaceAction::Wait));
    for event in [RaceEvent::NoneLeft, RaceEvent::TimedOut] {
        assert!(matches!(
            race_step(&wanted, event),
            RaceAction::GiveUp(TransportError::NoPath)
        ));
    }
}

/// The text of a Noise error.
fn reason<T>(r: Result<T, CoreError>) -> String {
    match r {
        Ok(_) => panic!("should fail"),
        Err(e) => e.text(),
    }
}

#[test]
fn noise_errors_tell_why() {
    let id = PeerId([1u8; 32]);
    let pa = NoiseProvider::new([3u8; 32]);
    let pb = NoiseProvider::new([4u8; 32]);
    let mut init = pa.new_initiator(&pb.local_pubkey()).unwrap();
    let mut resp = pb.new_responder().unwrap();
    let not_write = "invalid endpoint: state error: NotTurnToWrite";
    let not_read = "invalid endpoint: state error: NotTurnToRead";
    let finished = "invalid endpoint: state error: HandshakeAlreadyFinished";
    let input = "invalid endpoint: input error";
    let decrypt = "invalid endpoint: decrypt error";
    assert_eq!(reason(resp.write_message(&id)), not_write);
    assert_eq!(reason(init.read_message(&[0u8; 128])), not_read);
    assert_eq!(reason(init.read_message(&vec![0u8; 65536])), input);
    for (len, want) in [(0, input), (31, input), (79, input), (80, decrypt), (128, decrypt)] {
        assert_eq!(reason(resp.read_message(&vec![0u8; len])), want);
    }
    let msg1 = init.write_message(&id).unwrap();
    assert_eq!(reason(init.write_message(&id)), not_write);
    for (len, want) in [(31, input), (32, decrypt), (80, decrypt)] {
        assert_eq!(reason(init.read_message(&vec![0u8; len])), want);
    }
    resp.read_message(&msg1).unwrap();
    assert_eq!(reason(resp.read_message(&msg1)), not_read);
    let msg2 = resp.write_message(&id).unwrap();
    init.read_message(&msg2).unwrap();
    assert_eq!(reason(init.write_message(&id)), finished);
    assert_eq!(reason(init.read_message(&msg2)), not_read);
    assert_eq!(reason(resp.write_message(&id)), not_write);
    assert_eq!(reason(resp.read_message(&msg1)), finished);
    let mut session = init.into_transport().unwrap();
    assert_eq!(reason(session.encrypt(&vec![0u8; 65520])), input);
    assert_eq!(reason(session.decrypt(&vec![0u8; 65536])), input);
    assert_eq!(reason(session.decrypt(&[0u8; 15])), decrypt);
    assert_eq!(reason(session.decrypt(&[0u8; 40])), decrypt);
}
