use lain::error::CoreError;
use lain::frame::{
    decode_frame_header, decode_varint, encode_frame, encode_handshake_frame, encode_varint,
    parse_handshake_frame_header, FrameType, MAGIC, MAX_PAYLOAD_SIZE,
};

#[test]
fn test_encode_decode_frame() {
    let payload = b"hello";
    let frame = encode_frame(1, FrameType::Data, payload);
    let (sid, ft, plen, hlen) = decode_frame_header(&frame).unwrap();
    assert_eq!(sid, 1);
    assert_eq!(ft, FrameType::Data);
    assert_eq!(plen, 5);
    assert_eq!(&frame[hlen..hlen + 5], payload);
}

#[test]
fn test_varint_roundtrip() {
    for v in [0, 1, 63, 64, 255, 16383, 16384, 65535, 1_000_000, 1_000_000_000] {
        let mut buf = Vec::new();
        encode_varint(v, &mut buf);
        let (decoded, _) = decode_varint(&buf).unwrap();
        assert_eq!(v, decoded, "varint {v}");
    }
}

#[test]
fn test_all_frame_types_roundtrip() {
    let cases: Vec<(FrameType, &str)> = vec![
        (FrameType::Headers, "Headers"),
        (FrameType::Data, "Data"),
        (FrameType::DataDgram, "DataDgram"),
        (FrameType::Close, "Close"),
        (FrameType::Ping, "Ping"),
        (FrameType::Pong, "Pong"),
        (FrameType::PathChange, "PathChange"),
        (FrameType::StreamResume, "StreamResume"),
        (FrameType::RelayConnect, "RelayConnect"),
        (FrameType::RelayData, "RelayData"),
    ];
    for (ft, name) in &cases {
        let payload = format!("hello {name}").into_bytes();
        let frame = encode_frame(42, *ft, &payload);
        let (sid, decoded_ft, plen, hlen) = decode_frame_header(&frame).unwrap();
        assert_eq!(sid, 42, "{name}: stream_id mismatch");
        assert_eq!(decoded_ft, *ft, "{name}: frame type mismatch");
        assert_eq!(plen as usize, payload.len(), "{name}: payload len mismatch");
        assert_eq!(&frame[hlen..hlen + payload.len()], &payload, "{name}: payload mismatch");
    }
}

#[test]
fn test_frame_empty_payload() {
    let frame = encode_frame(0, FrameType::Ping, &[]);
    let (sid, ft, plen, hlen) = decode_frame_header(&frame).unwrap();
    assert_eq!(sid, 0);
    assert_eq!(ft, FrameType::Ping);
    assert_eq!(plen, 0);
    assert_eq!(hlen, frame.len());
}

#[test]
fn test_frame_large_payload() {
    let payload = vec![0xAAu8; 65536];
    let frame = encode_frame(1, FrameType::Data, &payload);
    let (sid, ft, plen, hlen) = decode_frame_header(&frame).unwrap();
    assert_eq!(sid, 1);
    assert_eq!(ft, FrameType::Data);
    assert_eq!(plen as usize, 65536);
    assert_eq!(&frame[hlen..hlen + 65536], &payload);
}

#[test]
fn test_decode_frame_rejects_invalid_magic() {
    assert!(decode_frame_header(&[0x00, 0x00, 0x00]).is_none());
    assert!(decode_frame_header(&[0x4C, 0x41, 0x00]).is_none());
}

#[test]
fn test_decode_frame_rejects_too_short() {
    assert!(decode_frame_header(&[]).is_none());
    assert!(decode_frame_header(&[0x4C, 0x41]).is_none());
}

#[test]
fn test_decode_frame_rejects_unknown_type() {
    let mut buf = Vec::new();
    buf.extend_from_slice(&MAGIC);
    encode_varint(1, &mut buf);
    encode_varint(0xFFu64, &mut buf);
    encode_varint(0, &mut buf);
    assert!(decode_frame_header(&buf).is_none());
}

#[test]
fn large_frame_types_are_unknown() {
    assert!(decode_frame_header(&[0x4C, 0x41, 0x49, 0x01, 0x41, 0x01, 0x00]).is_none());
    for kind in [10u64, 256, 257, 264, 0x1_0001, 0x4000_0001] {
        let mut buf = Vec::new();
        buf.extend_from_slice(&MAGIC);
        encode_varint(1, &mut buf);
        encode_varint(kind, &mut buf);
        encode_varint(0, &mut buf);
        assert!(decode_frame_header(&buf).is_none());
    }
}

#[test]
fn test_varint_decode_truncated() {
    let buf = vec![0x7Fu8];
    assert!(decode_varint(&buf).is_none());

    let buf = vec![0x8Cu8, 0x00, 0x00];
    assert!(decode_varint(&buf).is_none());

    let buf = vec![0xC0u8, 0x00, 0x00, 0x00, 0x00];
    assert!(decode_varint(&buf).is_none());
}

#[test]
fn test_varint_decode_empty() {
    assert!(decode_varint(&[]).is_none());
}

#[test]
fn test_frame_from_u8_all_valid() {
    for v in 0x00..=0x09u8 {
        assert!(FrameType::from_u8(v).is_some(), "frame type 0x{v:02X} should be valid");
    }
}

#[test]
fn test_frame_from_u8_invalid() {
    for v in 0x0A..=0x7Fu8 {
        assert!(FrameType::from_u8(v).is_none(), "frame type 0x{v:02X} should be invalid");
    }
}

#[test]
fn varint_exact_bytes() {
    let cases: Vec<(u64, Vec<u8>)> = vec![
        (37, vec![0x25]),
        (15293, vec![0x7b, 0xbd]),
        (494878333, vec![0x9d, 0x7f, 0x3e, 0x7d]),
        (151288809941952652, vec![0xc2, 0x19, 0x7c, 0x5e, 0xff, 0x14, 0xe8, 0x8c]),
    ];
    for (v, bytes) in cases {
        let mut buf = Vec::new();
        encode_varint(v, &mut buf);
        assert_eq!(buf, bytes);
        assert_eq!(decode_varint(&buf), Some((v, bytes.len())));
    }
}

#[test]
fn varint_limit() {
    let max = (1u64 << 62) - 1;
    let mut buf = Vec::new();
    encode_varint(max, &mut buf);
    assert_eq!(decode_varint(&buf), Some((max, 8)));
    // Bits above the 62nd do not fit.
    let mut buf = Vec::new();
    encode_varint(u64::MAX, &mut buf);
    assert_eq!(decode_varint(&buf), Some((max, 8)));
}

#[test]
fn frame_codes_roundtrip() {
    for v in 0..=9u8 {
        assert_eq!(FrameType::from_u8(v).unwrap().code(), v);
    }
}

#[test]
fn frame_payload_limit() {
    let mut buf = Vec::new();
    buf.extend_from_slice(&MAGIC);
    encode_varint(1, &mut buf);
    encode_varint(1, &mut buf);
    let mut ok = buf.clone();
    encode_varint(MAX_PAYLOAD_SIZE, &mut ok);
    assert_eq!(decode_frame_header(&ok), Some((1, FrameType::Data, 4194304, ok.len())));
    encode_varint(MAX_PAYLOAD_SIZE + 1, &mut buf);
    assert!(decode_frame_header(&buf).is_none());
}

#[test]
fn handshake_frame_roundtrip() {
    let f = encode_handshake_frame(1, b"abc");
    assert_eq!(f, vec![0x4C, 0x41, 0x49, 1, 1, 0, 0, 3, b'a', b'b', b'c']);
    let mut header = [0u8; 8];
    header.copy_from_slice(&f[..8]);
    let h = parse_handshake_frame_header(&header).unwrap();
    assert_eq!((h.step, h.payload_len), (1, 3));
}

#[test]
fn handshake_frame_errors() {
    let bad = [0u8; 8];
    match parse_handshake_frame_header(&bad) {
        Err(CoreError::HandshakeFrame(s)) => assert_eq!(s, "bad magic"),
        other => panic!("unexpected {other:?}"),
    }
    let old = [0x4C, 0x41, 0x49, 9, 0, 0, 0, 0];
    let e = parse_handshake_frame_header(&old).unwrap_err();
    assert_eq!(e.text(), "protocol version mismatch: local=1, remote=9");
}
