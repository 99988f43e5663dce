//! Frames: what travels on an established connection, and the frames of the
//! handshake that precedes it.
use crate::bytes;
use crate::bytes::{push_bytes, push_u16, push_u24, push_u32, push_u64, read_u24};
use crate::error::CoreError;
use crate::PROTOCOL_VERSION;
use vstd::prelude::*;

verus! {

/// The kind of a frame.
#[derive(Clone, Copy, Debug, PartialEq, Eq, Structural)]
pub enum FrameType {
    Headers,
    Data,
    DataDgram,
    Close,
    Ping,
    Pong,
    PathChange,
    StreamResume,
    RelayConnect,
    RelayData,
}

impl FrameType {
    /// The number that stands for the kind on the wire.
    pub open spec fn spec_code(self) -> u8 {
        match self {
            FrameType::Headers => 0,
            FrameType::Data => 1,
            FrameType::DataDgram => 2,
            FrameType::Close => 3,
            FrameType::Ping => 4,
            FrameType::Pong => 5,
            FrameType::PathChange => 6,
            FrameType::StreamResume => 7,
            FrameType::RelayConnect => 8,
            FrameType::RelayData => 9,
        }
    }

    /// The number that stands for the kind on the wire.
    pub fn code(self) -> (r: u8)
        ensures
            r == self.spec_code(),
    {
        match self {
            FrameType::Headers => 0,
            FrameType::Data => 1,
            FrameType::DataDgram => 2,
            FrameType::Close => 3,
            FrameType::Ping => 4,
            FrameType::Pong => 5,
            FrameType::PathChange => 6,
            FrameType::StreamResume => 7,
            FrameType::RelayConnect => 8,
            FrameType::RelayData => 9,
        }
    }

    /// The kind that a number stands for; ten numbers stand for one.
    pub fn from_u8(v: u8) -> (r: Option<Self>)
        ensures
            r == frame_type_of(v),
            match r {
                Some(t) => t.spec_code() == v,
                None => v > 9,
            },
    {
        if v == 0 {
            Some(FrameType::Headers)
        } else if v == 1 {
            Some(FrameType::Data)
        } else if v == 2 {
            Some(FrameType::DataDgram)
        } else if v == 3 {
            Some(FrameType::Close)
        } else if v == 4 {
            Some(FrameType::Ping)
        } else if v == 5 {
            Some(FrameType::Pong)
        } else if v == 6 {
            Some(FrameType::PathChange)
        } else if v == 7 {
            Some(FrameType::StreamResume)
        } else if v == 8 {
            Some(FrameType::RelayConnect)
        } else if v == 9 {
            Some(FrameType::RelayData)
        } else {
            None
        }
    }
}

/// The kind whose code is `v`, if there is one.
pub open spec fn frame_type_of(v: u8) -> Option<FrameType> {
    if v == 0 {
        Some(FrameType::Headers)
    } else if v == 1 {
        Some(FrameType::Data)
    } else if v == 2 {
        Some(FrameType::DataDgram)
    } else if v == 3 {
        Some(FrameType::Close)
    } else if v == 4 {
        Some(FrameType::Ping)
    } else if v == 5 {
        Some(FrameType::Pong)
    } else if v == 6 {
        Some(FrameType::PathChange)
    } else if v == 7 {
        Some(FrameType::StreamResume)
    } else if v == 8 {
        Some(FrameType::RelayConnect)
    } else if v == 9 {
        Some(FrameType::RelayData)
    } else {
        None
    }
}

/// Looking up the code of a kind gives the kind.
pub proof fn law_frame_type_code_roundtrip(t: FrameType)
    ensures
        frame_type_of(t.spec_code()) == Some(t),
{
}

/// The bytes "LAI" that every frame starts with.
pub const MAGIC: [u8; 3] = [0x4C, 0x41, 0x49];

/// The longest payload that a frame may announce: 4 MiB.
pub const MAX_PAYLOAD_SIZE: u64 = 4194304;

/// The three bytes of `MAGIC`.
pub open spec fn magic() -> Seq<u8> {
    seq![0x4Cu8, 0x41u8, 0x49u8]
}

/// Two to the 62nd: the numbers that a varint can hold lie below it.
pub open spec fn varint_limit() -> nat {
    0x4000_0000_0000_0000
}

/// The tag of the shortest varint that holds `v`: 0, 1, 2 or 3, for a width of
/// 1, 2, 4 or 8 bytes.
pub open spec fn varint_tag(v: nat) -> nat {
    if v < 0x40 {
        0
    } else if v < 0x4000 {
        1
    } else if v < 0x4000_0000 {
        2
    } else {
        3
    }
}

/// The width in bytes of a varint with a given tag.
pub open spec fn varint_width(tag: nat) -> nat {
    if tag == 0 {
        1
    } else if tag == 1 {
        2
    } else if tag == 2 {
        4
    } else {
        8
    }
}

/// How many numbers a varint with a given tag can hold: the width in bits,
/// less the two bits of the tag.
pub open spec fn varint_capacity(tag: nat) -> nat {
    if tag == 0 {
        0x40
    } else if tag == 1 {
        0x4000
    } else if tag == 2 {
        0x4000_0000
    } else {
        0x4000_0000_0000_0000
    }
}

/// The varint of `v`: the tag in the two most significant bits, and below it
/// the low-order 62 bits of `v`, in the shortest of the four widths.
pub open spec fn varint_bytes(v: nat) -> Seq<u8> {
    let tag = varint_tag(v);
    bytes::be_bytes(tag * varint_capacity(tag) + v % varint_capacity(tag), varint_width(tag))
}

/// The number and the width of the varint that `s` starts with, if `s` holds
/// all of it.
pub open spec fn varint_at_start(s: Seq<u8>) -> Option<(nat, nat)> {
    if s.len() == 0 {
        None
    } else {
        let tag = (s[0] / 64) as nat;
        let width = varint_width(tag);
        if s.len() < width {
            None
        } else {
            Some((bytes::be_nat(s.subrange(0, width as int)) % varint_capacity(tag), width))
        }
    }
}

/// Appends the varint of `value`.
pub fn encode_varint(value: u64, buf: &mut Vec<u8>)
    ensures
        final(buf)@ == old(buf)@ + varint_bytes(value as nat),
{
    if value <= 63 {
        proof {
            bytes::lemma_be_bytes_small(value as nat);
        }
        buf.push(value as u8);
        assert(buf@ =~= old(buf)@ + varint_bytes(value as nat));
    } else if value <= 16383 {
        push_u16(buf, (0x4000 + value) as u16);
    } else if value <= 1073741823 {
        push_u32(buf, (0x8000_0000 + value) as u32);
    } else {
        push_u64(buf, 0xC000_0000_0000_0000 + value % 0x4000_0000_0000_0000);
    }
}

/// The number that `data` starts with and how many bytes it takes, or nothing
/// when `data` ends before it does.
pub fn decode_varint(data: &[u8]) -> (r: Option<(u64, usize)>)
    ensures
        match r {
            Some((v, n)) => varint_at_start(data@) == Some((v as nat, n as nat)),
            None => varint_at_start(data@) is None,
        },
{
    if data.len() == 0 {
        return None;
    }
    let first: u8 = data[0];
    let low: u64 = (first % 64) as u64;
    if first < 64 {
        proof {
            bytes::lemma_be_nat_small(data@.subrange(0, 1));
        }
        Some((low, 1))
    } else if first < 128 {
        if data.len() < 2 {
            return None;
        }
        proof {
            bytes::lemma_be_nat_small(data@.subrange(0, 2));
        }
        Some((low * 0x100 + data[1] as u64, 2))
    } else if first < 192 {
        if data.len() < 4 {
            return None;
        }
        proof {
            bytes::lemma_be_nat_small(data@.subrange(0, 4));
        }
        Some(
            (
                low * 0x100_0000 + data[1] as u64 * 0x1_0000 + data[2] as u64 * 0x100
                    + data[3] as u64,
                4,
            ),
        )
    } else {
        if data.len() < 8 {
            return None;
        }
        proof {
            bytes::lemma_be_nat_8(data@.subrange(0, 8));
        }
        let v: u64 = low * 0x100_0000_0000_0000 + data[1] as u64 * 0x1_0000_0000_0000
            + data[2] as u64 * 0x100_0000_0000 + data[3] as u64 * 0x1_0000_0000 + data[4] as u64
            * 0x100_0000 + data[5] as u64 * 0x1_0000 + data[6] as u64 * 0x100 + data[7] as u64;
        Some((v, 8))
    }
}

/// Reading a varint gives back the number that was written and the width of
/// what was written, whatever follows, for every number below two to the 62nd.
pub proof fn law_varint_roundtrip(v: nat, rest: Seq<u8>)
    requires
        v < varint_limit(),
    ensures
        varint_at_start(varint_bytes(v) + rest) == Some((v, varint_bytes(v).len())),
        varint_bytes(v).len() == varint_width(varint_tag(v)),
{
    let tag = varint_tag(v);
    let w = varint_width(tag);
    let n = tag * varint_capacity(tag) + v;
    assert(v % varint_capacity(tag) == v) by {
        vstd::arithmetic::div_mod::lemma_small_mod(v, varint_capacity(tag));
    }
    bytes::lemma_pow256();
    bytes::lemma_be_nat_of_bytes(n, w);
    let s = varint_bytes(v) + rest;
    assert(s.subrange(0, w as int) =~= bytes::be_bytes(n, w));
    if v < 0x40 {
        bytes::lemma_be_bytes_small(n);
        assert(n == v);
        assert(s[0] == v);
    } else if v < 0x4000 {
        bytes::lemma_be_bytes_small(n);
        assert(n == 0x4000 + v);
        assert(0x40 <= n / 0x100 < 0x80);
        assert(s[0] == n / 0x100);
        assert(n % 0x4000 == v);
    } else if v < 0x4000_0000 {
        bytes::lemma_be_bytes_small(n);
        assert(n == 0x8000_0000 + v);
        assert(0x80 <= n / 0x100_0000 < 0xC0);
        assert(s[0] == n / 0x100_0000);
        assert(n % 0x4000_0000 == v);
    } else {
        bytes::lemma_be_bytes_8(n);
        assert(n == 0xC000_0000_0000_0000 + v);
        assert(0xC0 <= n / 0x100_0000_0000_0000 < 0x100);
        assert(s[0] == n / 0x100_0000_0000_0000);
        assert(n % 0x4000_0000_0000_0000 == v);
    }
    assert((s[0] / 64) as nat == tag);
    assert(n % varint_capacity(tag) == v);
}

/// The bytes of a frame.
pub open spec fn frame_bytes(stream_id: nat, frame_type: FrameType, payload: Seq<u8>) -> Seq<u8> {
    magic() + varint_bytes(stream_id) + varint_bytes(frame_type.spec_code() as nat) + varint_bytes(
        payload.len(),
    ) + payload
}

/// The kind with a number. Nothing, where no kind has it.
pub open spec fn frame_type_numbered(n: nat) -> Option<FrameType> {
    if n > 255 {
        None
    } else {
        frame_type_of(n as u8)
    }
}

/// What the header at the start of `s` says: stream, kind, payload length and
/// the length of the header itself. Nothing, where `s` does not start with the
/// magic bytes and three whole varints, where the second is no kind, or where the
/// payload would be too long.
pub open spec fn frame_header(s: Seq<u8>) -> Option<(nat, FrameType, nat, nat)> {
    if s.len() < 3 || s.subrange(0, 3) != magic() {
        None
    } else {
        match varint_at_start(s.skip(3)) {
            None => None,
            Some((sid, w1)) => match varint_at_start(s.skip((3 + w1) as int)) {
                None => None,
                Some((kind, w2)) => match varint_at_start(s.skip((3 + w1 + w2) as int)) {
                    None => None,
                    Some((len, w3)) => match frame_type_numbered(kind) {
                        None => None,
                        Some(t) => if len > MAX_PAYLOAD_SIZE {
                            None
                        } else {
                            Some((sid, t, len, 3 + w1 + w2 + w3))
                        },
                    },
                },
            },
        }
    }
}

/// Writes a frame.
pub fn encode_frame(stream_id: u64, frame_type: FrameType, payload: &[u8]) -> (f: Vec<u8>)
    ensures
        f@ == frame_bytes(stream_id as nat, frame_type, payload@),
{
    let mut f: Vec<u8> = Vec::with_capacity(payload.len());
    f.push(0x4C);
    f.push(0x41);
    f.push(0x49);
    assert(f@ =~= magic());
    encode_varint(stream_id, &mut f);
    encode_varint(frame_type.code() as u64, &mut f);
    encode_varint(payload.len() as u64, &mut f);
    push_bytes(&mut f, payload);
    f
}

/// Whether `data` starts with the magic bytes.
fn starts_with_magic(data: &[u8]) -> (r: bool)
    ensures
        r == (data@.len() >= 3 && data@.subrange(0, 3) == magic()),
{
    let r: bool = data.len() >= 3 && data[0] == 0x4C && data[1] == 0x41 && data[2] == 0x49;
    proof {
        if data@.len() >= 3 {
            let h = data@.subrange(0, 3);
            assert(h[0] == data@[0] && h[1] == data@[1] && h[2] == data@[2]);
            assert(magic()[0] == 0x4C && magic()[1] == 0x41 && magic()[2] == 0x49);
            assert(r ==> h =~= magic());
        }
    }
    r
}

/// Reads a frame's header: stream, kind, payload length, and the length of the
/// header.
pub fn decode_frame_header(data: &[u8]) -> (r: Option<(u64, FrameType, u64, usize)>)
    ensures
        match r {
            Some((sid, t, len, n)) => frame_header(data@) == Some(
                (sid as nat, t, len as nat, n as nat),
            ),
            None => frame_header(data@) is None,
        },
{
    if !starts_with_magic(data) {
        return None;
    }
    let tail: &[u8] = &data[3..data.len()];
    assert(tail@ =~= data@.skip(3));
    let (sid, w1): (u64, usize) = match decode_varint(tail) {
        None => {
            return None;
        },
        Some(x) => x,
    };
    let tail: &[u8] = &data[3 + w1..data.len()];
    assert(tail@ =~= data@.skip(3 + w1));
    let (kind, w2): (u64, usize) = match decode_varint(tail) {
        None => {
            return None;
        },
        Some(x) => x,
    };
    let tail: &[u8] = &data[3 + w1 + w2..data.len()];
    assert(tail@ =~= data@.skip(3 + w1 + w2));
    let (len, w3): (u64, usize) = match decode_varint(tail) {
        None => {
            return None;
        },
        Some(x) => x,
    };
    if kind > 255 {
        return None;
    }
    let t: FrameType = match FrameType::from_u8(kind as u8) {
        None => {
            return None;
        },
        Some(t) => t,
    };
    if len > MAX_PAYLOAD_SIZE {
        return None;
    }
    Some((sid, t, len, 3 + w1 + w2 + w3))
}

/// Reading the header of a written frame gives back stream, kind and payload
/// length, and the payload starts where the header ends.
pub proof fn law_frame_roundtrip(sid: nat, t: FrameType, payload: Seq<u8>, rest: Seq<u8>)
    requires
        sid < varint_limit(),
        payload.len() <= MAX_PAYLOAD_SIZE,
    ensures
        ({
            let f = frame_bytes(sid, t, payload) + rest;
            let n = (frame_bytes(sid, t, payload).len() - payload.len()) as nat;
            &&& frame_header(f) == Some((sid, t, payload.len(), n))
            &&& f.subrange(n as int, (n + payload.len()) as int) == payload
        }),
{
    let f = frame_bytes(sid, t, payload) + rest;
    let a = varint_bytes(sid);
    let b = varint_bytes(t.spec_code() as nat);
    let c = varint_bytes(payload.len());
    let n = (frame_bytes(sid, t, payload).len() - payload.len()) as nat;
    law_varint_roundtrip(sid, b + c + payload + rest);
    law_varint_roundtrip(t.spec_code() as nat, c + payload + rest);
    law_varint_roundtrip(payload.len(), payload + rest);
    law_frame_type_code_roundtrip(t);
    assert(f.subrange(0, 3) =~= magic());
    assert(f.skip(3) =~= a + (b + c + payload + rest));
    assert(f.skip((3 + a.len()) as int) =~= b + (c + payload + rest));
    assert(f.skip((3 + a.len() + b.len()) as int) =~= c + (payload + rest));
    assert(f.subrange(n as int, (n + payload.len()) as int) =~= payload);
}

/// The length of a handshake frame's header.
pub const HANDSHAKE_HEADER_LEN: usize = 8;

/// The bytes of a handshake frame: the magic bytes, the protocol version, the
/// step, the payload's length in three bytes, and the payload.
pub open spec fn handshake_frame_bytes(step: u8, payload: Seq<u8>) -> Seq<u8> {
    magic() + seq![PROTOCOL_VERSION, step] + bytes::be_bytes(payload.len(), 3) + payload
}

/// Writes a handshake frame.
pub fn encode_handshake_frame(step: u8, payload: &[u8]) -> (f: Vec<u8>)
    requires
        payload@.len() < 0x100_0000,
    ensures
        f@ == handshake_frame_bytes(step, payload@),
{
    let mut f: Vec<u8> = Vec::with_capacity(payload.len());
    f.push(0x4C);
    f.push(0x41);
    f.push(0x49);
    f.push(PROTOCOL_VERSION);
    f.push(step);
    assert(f@ =~= magic() + seq![PROTOCOL_VERSION, step]);
    push_u24(&mut f, payload.len() as u32);
    push_bytes(&mut f, payload);
    f
}

/// What the header of a handshake frame says.
#[derive(Clone, Copy, Debug, PartialEq, Eq, Structural)]
pub struct HandshakeFrameHeader {
    pub step: u8,
    pub payload_len: usize,
}

/// Reads a handshake frame's header. A version other than this one's is an error
/// of its own.
pub fn parse_handshake_frame_header(header: &[u8; 8]) -> (r: Result<
    HandshakeFrameHeader,
    CoreError,
>)
    ensures
        match r {
            Ok(h) => {
                &&& header@.subrange(0, 3) == magic()
                &&& header@[3] == PROTOCOL_VERSION
                &&& h.step == header@[4]
                &&& h.payload_len as nat == bytes::be_nat(header@.subrange(5, 8))
                &&& h.payload_len < 0x100_0000
            },
            Err(CoreError::HandshakeFrame(text)) => {
                &&& header@.subrange(0, 3) != magic()
                &&& text@ == "bad magic"@
            },
            Err(CoreError::VersionMismatch { local, remote }) => {
                &&& header@.subrange(0, 3) == magic()
                &&& header@[3] != PROTOCOL_VERSION
                &&& local == PROTOCOL_VERSION
                &&& remote == header@[3]
            },
            Err(_) => false,
        },
{
    let h: &[u8] = header.as_slice();
    if !starts_with_magic(h) {
        return Err(CoreError::HandshakeFrame("bad magic".to_string()));
    }
    if h[3] != PROTOCOL_VERSION {
        return Err(CoreError::VersionMismatch { local: PROTOCOL_VERSION, remote: h[3] });
    }
    let len: u32 = read_u24(h, 5);
    Ok(HandshakeFrameHeader { step: h[4], payload_len: len as usize })
}

/// The header of a written handshake frame reads back as its step and the
/// length of its payload.
pub proof fn law_handshake_frame_roundtrip(step: u8, payload: Seq<u8>)
    requires
        payload.len() < 0x100_0000,
    ensures
        ({
            let f = handshake_frame_bytes(step, payload);
            &&& f.subrange(0, 3) == magic()
            &&& f[3] == PROTOCOL_VERSION
            &&& f[4] == step
            &&& bytes::be_nat(f.subrange(5, 8)) == payload.len()
            &&& f.skip(8) == payload
        }),
{
    let f = handshake_frame_bytes(step, payload);
    bytes::lemma_pow256();
    bytes::lemma_be_nat_of_bytes(payload.len(), 3);
    assert(f.subrange(0, 3) =~= magic());
    assert(f.subrange(5, 8) =~= bytes::be_bytes(payload.len(), 3));
    assert(f.skip(8) =~= payload);
}

/// A varint takes one, two, four or eight bytes, as few as can be, whose two highest bits
/// say which, and whose other bits are the number.
pub proof fn law_varint_layout(v: nat)
    requires
        v < 0x4000_0000_0000_0000,
    ensures
        v < 0x40 ==> varint_bytes(v).len() == 1 && bytes::be_nat(varint_bytes(v)) == v,
        0x40 <= v < 0x4000 ==> varint_bytes(v).len() == 2 && bytes::be_nat(varint_bytes(v))
            == 0x4000 + v,
        0x4000 <= v < 0x4000_0000 ==> varint_bytes(v).len() == 4 && bytes::be_nat(varint_bytes(v))
            == 0x8000_0000 + v,
        0x4000_0000 <= v ==> varint_bytes(v).len() == 8 && bytes::be_nat(varint_bytes(v))
            == 0xC000_0000_0000_0000 + v,
{
    let tag = varint_tag(v);
    let n = tag * varint_capacity(tag) + v;
    assert(v % varint_capacity(tag) == v) by {
        vstd::arithmetic::div_mod::lemma_small_mod(v, varint_capacity(tag));
    }
    bytes::lemma_pow256();
    if v < 0x40 {
        assert(n == v && n < 0x100);
    } else if v < 0x4000 {
        assert(n == 0x4000 + v && n < 0x1_0000);
    } else if v < 0x4000_0000 {
        assert(n == 0x8000_0000 + v && n < 0x1_0000_0000);
    } else {
        assert(n == 0xC000_0000_0000_0000 + v && n < 0x1_0000_0000_0000_0000);
    }
    bytes::lemma_be_nat_of_bytes(n, varint_width(tag));
    bytes::lemma_be_bytes_len(n, varint_width(tag));
}

/// Bytes that start with "LAI" and three varints are the header of a frame exactly where
/// the second is at most 9 and the third at most 4 MiB: of the stream that the first says,
/// of the kind with that number, and with a payload of that length. Bytes that start
/// otherwise are none.
pub proof fn law_frame_header(sid: nat, kind: nat, len: nat, rest: Seq<u8>, other: Seq<u8>)
    requires
        sid < varint_limit(),
        kind < varint_limit(),
        len < varint_limit(),
    ensures
        ({
            let s = seq![76u8, 65u8, 73u8] + varint_bytes(sid) + varint_bytes(kind)
                + varint_bytes(len) + rest;
            let h = frame_header(s);
            &&& h is Some <==> kind <= 9 && len <= 4194304
            &&& h matches Some((i, t, n, at)) ==> i == sid && t.spec_code() == kind && n == len
                && s.skip(at as int) == rest
        }),
        other.len() < 3 || other[0] != 76 || other[1] != 65 || other[2] != 73 ==> frame_header(
            other,
        ) is None,
{
    let a = varint_bytes(sid);
    let b = varint_bytes(kind);
    let c = varint_bytes(len);
    let s = seq![76u8, 65u8, 73u8] + a + b + c + rest;
    law_varint_roundtrip(sid, b + c + rest);
    law_varint_roundtrip(kind, c + rest);
    law_varint_roundtrip(len, rest);
    assert(s.subrange(0, 3) =~= magic());
    assert(s.skip(3) =~= a + (b + c + rest));
    assert(s.skip((3 + a.len()) as int) =~= b + (c + rest));
    assert(s.skip((3 + a.len() + b.len()) as int) =~= c + rest);
    assert(s.skip((3 + a.len() + b.len() + c.len()) as int) =~= rest);
    if other.len() >= 3 && other.subrange(0, 3) == magic() {
        let h = other.subrange(0, 3);
        assert(h[0] == other[0] && h[1] == other[1] && h[2] == other[2]);
        assert(magic()[0] == 76 && magic()[1] == 65 && magic()[2] == 73);
    }
}

/// A frame is "LAI", the stream, the number of its kind and the length of its payload, and
/// the payload.
pub proof fn law_frame_layout(sid: nat, t: FrameType, payload: Seq<u8>)
    ensures
        frame_bytes(sid, t, payload) == seq![76u8, 65u8, 73u8] + varint_bytes(sid) + varint_bytes(
            match t {
                FrameType::Headers => 0,
                FrameType::Data => 1,
                FrameType::DataDgram => 2,
                FrameType::Close => 3,
                FrameType::Ping => 4,
                FrameType::Pong => 5,
                FrameType::PathChange => 6,
                FrameType::StreamResume => 7,
                FrameType::RelayConnect => 8,
                FrameType::RelayData => 9,
            },
        ) + varint_bytes(payload.len()) + payload,
{
}

} // verus!
