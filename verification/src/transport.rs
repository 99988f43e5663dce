//! Connections: what is sent and read on them, and how they are set up.
use crate::bytes;
use crate::bytes::{array_at, copy_range, push_bytes, read_u24};
use crate::endpoint::{AddrView, Endpoint, EndpointKind, SocketAddr};
use crate::error::CoreError;
use crate::frame;
use crate::frame::{
    decode_frame_header, encode_handshake_frame, parse_handshake_frame_header, FrameType,
};
use crate::noise;
use crate::noise::{
    CryptoProvider, Handshake, NoiseHandshake, NoiseProvider, NoiseTransport, Session,
};
use crate::peer;
use crate::peer::PeerId;
use crate::primitives;
use crate::text::concat2;
use vstd::prelude::*;

verus! {

/// What can go wrong with a connection.
#[derive(Debug)]
pub enum TransportError {
    Connect(String),
    Noise(String),
    Io(String),
    NoPath,
}

impl TransportError {
    /// The text of the error.
    pub open spec fn message(&self) -> Seq<char> {
        match self {
            TransportError::Connect(s) => "connect: "@ + s@,
            TransportError::Noise(s) => "noise: "@ + s@,
            TransportError::Io(s) => "io: "@ + s@,
            TransportError::NoPath => "no path"@,
        }
    }

    /// The text of the error.
    pub fn text(&self) -> (s: String)
        ensures
            s@ == self.message(),
    {
        match self {
            TransportError::Connect(s) => concat2("connect: ", s.as_str()),
            TransportError::Noise(s) => concat2("noise: ", s.as_str()),
            TransportError::Io(s) => concat2("io: ", s.as_str()),
            TransportError::NoPath => "no path".to_string(),
        }
    }

    /// The error as one of the core types'.
    pub fn to_core(&self) -> (e: CoreError)
        ensures
            e is InvalidEndpoint,
            e->InvalidEndpoint_0@ == self.message(),
    {
        CoreError::InvalidEndpoint(self.text())
    }
}

/// Whether an error is one of Noise with a given text.
pub open spec fn is_noise_error(e: TransportError, text: Seq<char>) -> bool {
    e is Noise && e->Noise_0@ == text
}

/// Whether an error is one of connecting with a given text.
pub open spec fn is_connect_error(e: TransportError, text: Seq<char>) -> bool {
    e is Connect && e->Connect_0@ == text
}

/// How a connection came about.
#[derive(Clone, Copy, Debug, PartialEq, Eq, Structural)]
pub enum PathType {
    Direct,
    TSO,
}

/// How the transport is set up.
#[derive(Clone, Copy, Debug)]
pub struct TransportConfig {
    pub bind_addr: SocketAddr,
    pub has_ipv6: bool,
    pub tso_port_start: u16,
}

impl Default for TransportConfig {
    /// Any address, no IPv6, and ports from 50000 on.
    fn default() -> (r: Self)
        ensures
            r.bind_addr@ == (AddrView::V4 { octets: seq![0u8, 0u8, 0u8, 0u8], port: 0 }),
            !r.has_ipv6,
            r.tso_port_start == 50000,
    {
        TransportConfig {
            bind_addr: SocketAddr::v4(0, 0, 0, 0, 0),
            has_ipv6: false,
            tso_port_start: 50000,
        }
    }
}

/// What the application gets of what came on a stream: nothing for an empty
/// stream and for a HEADERS frame; the payload of any other frame, or no bytes
/// where it is cut off; and bytes without a frame's header as they are.
pub open spec fn received(data: Seq<u8>) -> Option<(FrameType, Seq<u8>)> {
    if data.len() == 0 {
        None
    } else {
        match frame::frame_header(data) {
            None => Some((FrameType::Data, data)),
            Some((sid, t, len, header)) => if t == FrameType::Headers {
                None
            } else if header + len <= data.len() {
                Some((t, data.subrange(header as int, (header + len) as int)))
            } else {
                Some((t, Seq::empty()))
            },
        }
    }
}

/// What the application gets of what came on a stream.
pub fn receive_stream(data: Vec<u8>) -> (r: Option<(FrameType, Vec<u8>)>)
    ensures
        match r {
            Some((t, payload)) => received(data@) == Some((t, payload@)),
            None => received(data@) is None,
        },
{
    if data.len() == 0 {
        return None;
    }
    match decode_frame_header(data.as_slice()) {
        None => Some((FrameType::Data, data)),
        Some((_, t, len, header)) => {
            if t == FrameType::Headers {
                return None;
            }
            let room: usize = if header <= data.len() {
                data.len() - header
            } else {
                0
            };
            if header <= data.len() && len <= room as u64 {
                let end: usize = header + len as usize;
                Some((t, copy_range(data.as_slice(), header, end)))
            } else {
                let none: Vec<u8> = Vec::new();
                assert(none@ =~= Seq::<u8>::empty());
                Some((t, none))
            }
        },
    }
}

/// What is sent as a frame of some kind on a stream is what the application at the
/// other end gets, but for HEADERS frames, of which it gets nothing.
pub proof fn law_stream_roundtrip(sid: nat, t: FrameType, payload: Seq<u8>)
    requires
        sid < frame::varint_limit(),
        payload.len() <= frame::MAX_PAYLOAD_SIZE,
    ensures
        received(frame::frame_bytes(sid, t, payload)) == if t == FrameType::Headers {
            None
        } else {
            Some((t, payload))
        },
{
    frame::law_frame_roundtrip(sid, t, payload, Seq::empty());
    let f = frame::frame_bytes(sid, t, payload);
    assert(f + Seq::<u8>::empty() =~= f);
}

/// What came of the attempts to reach a peer that run at the same time.
#[derive(Debug)]
pub enum RaceEvent {
    /// Someone who says to be this was reached.
    Connected(PeerId),
    /// An attempt failed.
    Failed,
    /// No attempt is left.
    NoneLeft,
    /// The time ran out.
    TimedOut,
}

/// What to do about it.
#[derive(Debug)]
pub enum RaceAction {
    /// Keep the connection; the others do not matter any more.
    Keep,
    /// Close the connection, and wait on.
    Close,
    /// Wait on.
    Wait,
    /// Give up.
    GiveUp(TransportError),
}

/// What to do about an attempt to reach a peer: the first connection to the peer itself
/// is kept, and any other is closed.
pub fn race_step(wanted: &PeerId, event: RaceEvent) -> (r: RaceAction)
    ensures
        match event {
            RaceEvent::Connected(id) => if id@ == wanted@ {
                r is Keep
            } else {
                r is Close
            },
            RaceEvent::Failed => r is Wait,
            RaceEvent::NoneLeft => r == RaceAction::GiveUp(TransportError::NoPath),
            RaceEvent::TimedOut => r == RaceAction::GiveUp(TransportError::NoPath),
        },
{
    match event {
        RaceEvent::Connected(id) => {
            proof {
                peer::lemma_peer_id_ext(id, *wanted);
            }
            if id == *wanted {
                RaceAction::Keep
            } else {
                RaceAction::Close
            }
        },
        RaceEvent::Failed => RaceAction::Wait,
        RaceEvent::NoneLeft => RaceAction::GiveUp(TransportError::NoPath),
        RaceEvent::TimedOut => RaceAction::GiveUp(TransportError::NoPath),
    }
}

/// The frame for some data on a TCP connection: it is encrypted as the next message.
/// No data at all makes the frame that keeps the connection alive.
pub fn tcp_message(session: &mut Session, data: &[u8]) -> (r: Result<Vec<u8>, CoreError>)
    ensures
        r is Ok <==> data@.len() + 16 <= 65535 && old(session).halves().sent
            < noise::last_count(),
        match r {
            Ok(f) => {
                let h = old(session).halves();
                let c = noise::noise_sealed(h.send_key, h.sent, data@);
                &&& noise::has_sealed(h, data@, final(session).halves(), c)
                &&& f@ == frame::handshake_frame_bytes(0, c)
            },
            Err(e) => {
                &&& noise::is_error(e, noise::encrypt_error(data@.len()))
                &&& final(session).halves() == old(session).halves()
            },
        },
{
    match session.encrypt(data) {
        Err(e) => Err(e),
        Ok(c) => Ok(encode_handshake_frame(0, c.as_slice())),
    }
}

/// What the application gets of a ciphertext on a TCP connection: nothing of one that
/// keeps the connection alive.
pub fn tcp_receive(session: &mut Session, ciphertext: &[u8]) -> (r: Result<
    Option<Vec<u8>>,
    CoreError,
>)
    ensures
        r is Ok <==> noise::can_open(old(session).halves(), ciphertext@),
        match r {
            Ok(Some(data)) => data@.len() > 0 && noise::has_opened(
                old(session).halves(),
                ciphertext@,
                final(session).halves(),
                data@,
            ),
            Ok(None) => noise::has_opened(
                old(session).halves(),
                ciphertext@,
                final(session).halves(),
                Seq::empty(),
            ),
            Err(e) => {
                let h = old(session).halves();
                &&& noise::is_error(e, noise::decrypt_error(ciphertext@.len(), h.received))
                &&& final(session).halves() == h
            },
        },
{
    match session.decrypt(ciphertext) {
        Err(e) => Err(e),
        Ok(data) => {
            if data.len() == 0 {
                assert(data@ =~= Seq::empty());
                return Ok(None);
            }
            Ok(Some(data))
        },
    }
}

/// The frame for some data on a TCP connection announces its ciphertext, which follows
/// the header, and the other end decrypts it to the data.
pub proof fn law_tcp_roundtrip(
    from: noise::Halves,
    to: noise::Halves,
    data: Seq<u8>,
    from_after: noise::Halves,
    c: Seq<u8>,
)
    requires
        noise::in_step(from, to),
        from.sent < noise::last_count(),
        data.len() + 16 <= 65535,
        noise::has_sealed(from, data, from_after, c),
    ensures
        ({
            let f = frame::handshake_frame_bytes(0, c);
            &&& bytes::be_nat(f.subrange(0, 8).subrange(5, 8)) == c.len()
            &&& f.skip(8) == c
        }),
        noise::can_open(to, c),
        forall|to_after: noise::Halves, got: Seq<u8>| #[trigger]
            noise::has_opened(to, c, to_after, got) ==> got == data && noise::in_step(
                from_after,
                to_after,
            ),
{
    frame::law_handshake_frame_roundtrip(0, c);
    let f = frame::handshake_frame_bytes(0, c);
    assert(f.subrange(0, 8).subrange(5, 8) =~= f.subrange(5, 8));
}

/// The length of the ciphertext that a header on a TCP connection announces.
pub fn tcp_payload_len(header: &[u8; 8]) -> (len: usize)
    ensures
        len as nat == bytes::be_nat(header@.subrange(5, 8)),
        len < 0x100_0000,
{
    read_u24(header.as_slice(), 5) as usize
}

/// Whether an endpoint can be tried over QUIC.
pub open spec fn is_quic_endpoint(e: Endpoint) -> bool {
    e.kind == EndpointKind::IPv6 || e.kind == EndpointKind::STUN
}

/// The addresses of the endpoints that can be tried over QUIC, in order.
pub open spec fn quic_addresses(eps: Seq<Endpoint>) -> Seq<SocketAddr>
    decreases eps.len(),
{
    if eps.len() == 0 {
        Seq::empty()
    } else {
        let rest = quic_addresses(eps.drop_last());
        if is_quic_endpoint(eps.last()) {
            rest.push(eps.last().addr)
        } else {
            rest
        }
    }
}

/// The addresses of the endpoints that can be tried over QUIC, in order.
pub fn quic_targets(endpoints: &[Endpoint]) -> (out: Vec<SocketAddr>)
    ensures
        out@ == quic_addresses(endpoints@),
        forall|i: int|
            0 <= i < endpoints@.len() && ((#[trigger] endpoints@[i]).kind == EndpointKind::IPv6
                || endpoints@[i].kind == EndpointKind::STUN) ==> out@.contains(endpoints@[i].addr),
        forall|a: SocketAddr| #[trigger]
            out@.contains(a) ==> exists|i: int|
                0 <= i < endpoints@.len() && (#[trigger] endpoints@[i]).addr == a && (
                endpoints@[i].kind == EndpointKind::IPv6 || endpoints@[i].kind
                    == EndpointKind::STUN),
{
    proof {
        law_quic_targets(endpoints@, Seq::empty());
    }
    let mut out: Vec<SocketAddr> = Vec::new();
    let mut i: usize = 0;
    while i < endpoints.len()
        invariant
            i <= endpoints@.len(),
            out@ == quic_addresses(endpoints@.subrange(0, i as int)),
        decreases endpoints@.len() - i,
    {
        assert(endpoints@.subrange(0, i + 1).drop_last() =~= endpoints@.subrange(0, i as int));
        let e: Endpoint = endpoints[i];
        if e.kind == EndpointKind::IPv6 || e.kind == EndpointKind::STUN {
            out.push(e.addr);
        }
        i = i + 1;
    }
    assert(endpoints@.subrange(0, i as int) =~= endpoints@);
    out
}

/// A first message that is read again, before any other.
#[derive(Debug)]
pub struct PeekBuffer {
    first: Option<Vec<u8>>,
}

impl PeekBuffer {
    /// The message that is still to be read.
    pub closed spec fn pending(&self) -> Option<Seq<u8>> {
        match self.first {
            Some(v) => Some(v@),
            None => None,
        }
    }

    /// Keeps a message to be read again.
    pub fn new(first: Vec<u8>) -> (r: Self)
        ensures
            r.pending() == Some(first@),
    {
        PeekBuffer { first: Some(first) }
    }

    /// The message, as a Data frame, the first time; nothing after that.
    pub fn take(&mut self) -> (r: Option<(FrameType, Vec<u8>)>)
        ensures
            final(self).pending() is None,
            match r {
                Some((t, data)) => t == FrameType::Data && old(self).pending() == Some(data@),
                None => old(self).pending() is None,
            },
    {
        match self.first.take() {
            Some(data) => Some((FrameType::Data, data)),
            None => None,
        }
    }
}

/// The longest payload that a handshake frame may announce.
pub const MAX_HANDSHAKE_PAYLOAD: usize = 65536;

/// What the header of the other side's handshake frame is taken for: the length
/// of its payload, or the text of the error.
pub open spec fn handshake_len(header: Seq<u8>, too_large: Seq<char>) -> Result<nat, Seq<char>> {
    if header.subrange(0, 3) != frame::magic() {
        Err("handshake frame error: "@ + "bad magic"@)
    } else if header[3] != crate::PROTOCOL_VERSION {
        Err(
            "protocol version mismatch: local="@ + crate::text::decimal(
                crate::PROTOCOL_VERSION as nat,
            ) + ", remote="@ + crate::text::decimal(header[3] as nat),
        )
    } else if bytes::be_nat(header.subrange(5, 8)) > MAX_HANDSHAKE_PAYLOAD {
        Err(too_large)
    } else {
        Ok(bytes::be_nat(header.subrange(5, 8)))
    }
}

/// Reads the header of the other side's handshake frame.
pub fn handshake_payload_len(header: &[u8; 8], too_large: &str) -> (r: Result<
    usize,
    TransportError,
>)
    ensures
        match r {
            Ok(len) => handshake_len(header@, too_large@) == Ok::<nat, Seq<char>>(len as nat),
            Err(TransportError::Noise(s)) => handshake_len(header@, too_large@) == Err::<
                nat,
                Seq<char>,
            >(s@),
            Err(_) => false,
        },
{
    match parse_handshake_frame_header(header) {
        Err(e) => Err(TransportError::Noise(e.text())),
        Ok(h) => {
            if h.payload_len > MAX_HANDSHAKE_PAYLOAD {
                return Err(TransportError::Noise(too_large.to_string()));
            }
            Ok(h.payload_len)
        },
    }
}

/// The handshake of the side that connects, after its first message.
#[derive(Debug)]
pub struct InitiatorHandshake {
    noise: Handshake,
}

/// The handshake of the side that is connected to, after its message.
#[derive(Debug)]
pub struct ResponderHandshake {
    noise: Handshake,
}

/// What a handshake established: who the other side says it is, its static key,
/// and the encrypted session.
#[derive(Debug)]
pub struct Established {
    pub peer_id: PeerId,
    pub noise_pubkey: Option<[u8; 32]>,
    pub session: Session,
}

/// Whether a frame holds the first message of a fresh handshake with the holder of a
/// static key, which thereby came to stand as it does.
pub open spec fn first_sent(
    secret: Seq<u8>,
    remote: Seq<u8>,
    id: Seq<u8>,
    after: Handshake,
    f: Seq<u8>,
) -> bool {
    exists|h: Handshake, m: Seq<u8>|
        {
            &&& noise::fresh_initiator(h, secret, remote)
            &&& #[trigger] noise::has_written(h, id, after, m)
            &&& f == frame::handshake_frame_bytes(0, m)
        }
}

/// Whether a frame holds the answer to a first message in a fresh handshake, which
/// thereby came to stand as it does.
pub open spec fn answer_sent(
    secret: Seq<u8>,
    request: Seq<u8>,
    id: Seq<u8>,
    step: u8,
    after: Handshake,
    f: Seq<u8>,
) -> bool {
    exists|h: Handshake, k: Handshake, m: Seq<u8>|
        {
            &&& noise::fresh_responder(h, secret)
            &&& #[trigger] noise::has_read(h, request, k)
            &&& #[trigger] noise::has_written(k, id, after, m)
            &&& f == frame::handshake_frame_bytes(step, m)
        }
}

impl InitiatorHandshake {
    /// The handshake.
    pub closed spec fn handshake(&self) -> Handshake {
        self.noise
    }

    /// Its first message went.
    #[verifier::type_invariant]
    spec fn inv(self) -> bool {
        &&& self.noise.wf()
        &&& noise::may_read(self.noise.progress())
        &&& self.noise.progress().initiator
    }

    /// What an answer brings: who the other side says it is, and its static key.
    pub open spec fn answered(&self, answer: Seq<u8>) -> Option<(Seq<u8>, Seq<u8>)> {
        noise::brings(answer, self.handshake().reads(answer))
    }

    /// Starts a handshake with the holder of a static key, and gives the frame
    /// that is to be sent. It does not fail.
    pub fn start(provider: &NoiseProvider, remote: &[u8; 32], my_id: &PeerId) -> (r: Result<
        (Self, Vec<u8>),
        TransportError,
    >)
        ensures
            match r {
                Ok((this, f)) => first_sent(
                    provider.key(),
                    remote@,
                    my_id@,
                    this.handshake(),
                    f@,
                ),
                Err(_) => false,
            },
    {
        let mut noise: Handshake = match provider.new_initiator(remote) {
            Err(e) => {
                return Err(TransportError::Noise(e.text()));
            },
            Ok(n) => n,
        };
        let ghost fresh = noise;
        match noise.write_message(my_id) {
            Err(e) => Err(TransportError::Noise(e.text())),
            Ok(m) => {
                let f: Vec<u8> = encode_handshake_frame(0, m.as_slice());
                let this: InitiatorHandshake = InitiatorHandshake { noise };
                assert(noise::has_written(fresh, my_id@, this.handshake(), m@));
                assert(first_sent(provider.key(), remote@, my_id@, this.handshake(), f@));
                Ok((this, f))
            },
        }
    }

    /// Reads the header of the answer.
    pub fn answer_len(header: &[u8; 8]) -> (r: Result<usize, TransportError>)
        ensures
            match r {
                Ok(len) => handshake_len(header@, "ik2 payload too large"@) == Ok::<
                    nat,
                    Seq<char>,
                >(len as nat),
                Err(TransportError::Noise(s)) => handshake_len(
                    header@,
                    "ik2 payload too large"@,
                ) == Err::<nat, Seq<char>>(s@),
                Err(_) => false,
            },
    {
        handshake_payload_len(header, "ik2 payload too large")
    }

    /// Ends the handshake with the answer: it succeeds where the answer brings an
    /// identifier.
    pub fn finish(self, answer: &[u8]) -> (r: Result<Established, TransportError>)
        ensures
            match r {
                Ok(est) => {
                    &&& self.answered(answer@) == Some((est.peer_id@, est.noise_pubkey->0@))
                    &&& est.noise_pubkey is Some
                    &&& answer@.len() >= 80
                    &&& exists|h: Handshake| #[trigger]
                        noise::has_read(self.handshake(), answer@, h) && est.session.halves()
                            == noise::starting(true, h.keys())
                },
                Err(e) => {
                    &&& self.answered(answer@) is None
                    &&& is_noise_error(e, unanswered_text(self.handshake(), answer@))
                },
            },
    {
        proof {
            use_type_invariant(&self);
        }
        let mut noise: Handshake = self.noise;
        let peer_id: PeerId = match noise.read_message(answer) {
            Err(e) => {
                return Err(TransportError::Noise(e.text()));
            },
            Ok(id) => id,
        };
        let noise_pubkey: Option<[u8; 32]> = noise.remote_pubkey();
        assert(noise::has_read(self.noise, answer@, noise));
        match noise.into_transport() {
            Err(e) => Err(TransportError::Noise(e.text())),
            Ok(session) => Ok(Established { peer_id, noise_pubkey, session }),
        }
    }
}

impl ResponderHandshake {
    /// The handshake.
    pub closed spec fn handshake(&self) -> Handshake {
        self.noise
    }

    /// Both messages came or went.
    #[verifier::type_invariant]
    spec fn inv(self) -> bool {
        &&& self.noise.wf()
        &&& self.noise.is_finished()
        &&& !self.noise.progress().initiator
    }

    /// Reads the header of the first message.
    pub fn request_len(header: &[u8; 8]) -> (r: Result<usize, TransportError>)
        ensures
            match r {
                Ok(len) => handshake_len(header@, "ik1 payload too large"@) == Ok::<
                    nat,
                    Seq<char>,
                >(len as nat),
                Err(TransportError::Noise(s)) => handshake_len(
                    header@,
                    "ik1 payload too large"@,
                ) == Err::<nat, Seq<char>>(s@),
                Err(_) => false,
            },
    {
        handshake_payload_len(header, "ik1 payload too large")
    }

    /// Reads the first message, and gives who sent it, its static key, and the
    /// frame that is to be sent back, with the given step. It succeeds where the
    /// message brings an identifier.
    pub fn respond(
        provider: &NoiseProvider,
        request: &[u8],
        my_id: &PeerId,
        step: u8,
    ) -> (r: Result<(Self, PeerId, Option<[u8; 32]>, Vec<u8>), TransportError>)
        ensures
            match r {
                Ok((this, id, key, f)) => {
                    &&& requested(provider.key(), request@) == Some((id@, key->0@))
                    &&& key is Some
                    &&& request@.len() >= 128
                    &&& answer_sent(
                        provider.key(),
                        request@,
                        my_id@,
                        step,
                        this.handshake(),
                        f@,
                    )
                },
                Err(e) => {
                    &&& requested(provider.key(), request@) is None
                    &&& is_noise_error(e, unrequested_text(provider.key(), request@))
                },
            },
    {
        let mut noise: Handshake = match provider.new_responder() {
            Err(e) => {
                return Err(TransportError::Noise(e.text()));
            },
            Ok(n) => n,
        };
        let ghost fresh = noise;
        let peer_id: PeerId = match noise.read_message(request) {
            Err(e) => {
                return Err(TransportError::Noise(e.text()));
            },
            Ok(id) => id,
        };
        let ghost read = noise;
        let noise_pubkey: Option<[u8; 32]> = noise.remote_pubkey();
        match noise.write_message(my_id) {
            Err(e) => Err(TransportError::Noise(e.text())),
            Ok(m) => {
                let f: Vec<u8> = encode_handshake_frame(step, m.as_slice());
                let this: ResponderHandshake = ResponderHandshake { noise };
                assert(noise::has_read(fresh, request@, read));
                assert(noise::has_written(read, my_id@, this.handshake(), m@));
                assert(answer_sent(
                    provider.key(),
                    request@,
                    my_id@,
                    step,
                    this.handshake(),
                    f@,
                ));
                Ok((this, peer_id, noise_pubkey, f))
            },
        }
    }

    /// Ends the handshake once the frame was sent. It does not fail.
    pub fn finish(self) -> (r: Result<Session, TransportError>)
        ensures
            r is Ok,
            r->Ok_0.halves() == noise::starting(false, self.handshake().keys()),
    {
        proof {
            use_type_invariant(&self);
        }
        match self.noise.into_transport() {
            Err(e) => Err(TransportError::Noise(e.text())),
            Ok(session) => Ok(session),
        }
    }
}

/// What a first message brings to the holder of a secret static key: who the other
/// side says it is, and its static key.
pub open spec fn requested(secret: Seq<u8>, request: Seq<u8>) -> Option<(Seq<u8>, Seq<u8>)> {
    noise::brings(request, noise::first_message(secret, request))
}

/// What the error says where a first message brings nothing to the holder of a secret
/// static key.
pub open spec fn unrequested_text(secret: Seq<u8>, request: Seq<u8>) -> Seq<char> {
    "invalid endpoint: "@ + noise::unread(
        false,
        0,
        request,
        noise::first_message(secret, request),
    )
}

/// What the error says where an answer brings nothing to the side that connects.
pub open spec fn unanswered_text(h: Handshake, answer: Seq<u8>) -> Seq<char> {
    "invalid endpoint: "@ + noise::unread(true, 1, answer, h.reads(answer))
}

/// Two sides that connect, each reading the message in the frame of the other: each
/// learns the identifier and the static key of the other, and what one encrypts from
/// then on, the other decrypts.
pub proof fn law_connect(
    a_secret: Seq<u8>,
    b_secret: Seq<u8>,
    a_id: Seq<u8>,
    b_id: Seq<u8>,
    step: u8,
    a1: Handshake,
    a2: Handshake,
    b2: Handshake,
    first: Seq<u8>,
    second: Seq<u8>,
)
    requires
        b_secret.len() == 32,
        a_id.len() == 32,
        b_id.len() == 32,
        first_sent(a_secret, primitives::x25519_public_key(b_secret), a_id, a1, first),
        answer_sent(b_secret, first.skip(8), b_id, step, b2, second),
        noise::has_read(a1, second.skip(8), a2),
    ensures
        requested(b_secret, first.skip(8)) == Some(
            (a_id, primitives::x25519_public_key(a_secret)),
        ),
        ({
            let answer = second.skip(8);
            noise::brings(answer, a1.reads(answer)) == Some(
                (b_id, primitives::x25519_public_key(b_secret)),
            )
        }),
        noise::in_step(noise::starting(true, a2.keys()), noise::starting(false, b2.keys())),
        noise::in_step(noise::starting(false, b2.keys()), noise::starting(true, a2.keys())),
{
    let request = first.skip(8);
    let answer = second.skip(8);
    let (a0, m1) = choose|h: Handshake, m: Seq<u8>|
        {
            &&& noise::fresh_initiator(h, a_secret, primitives::x25519_public_key(b_secret))
            &&& #[trigger] noise::has_written(h, a_id, a1, m)
            &&& first == frame::handshake_frame_bytes(0, m)
        };
    let (b0, b1, m2) = choose|h: Handshake, k: Handshake, m: Seq<u8>|
        {
            &&& noise::fresh_responder(h, b_secret)
            &&& #[trigger] noise::has_read(h, request, k)
            &&& #[trigger] noise::has_written(k, b_id, b2, m)
            &&& second == frame::handshake_frame_bytes(step, m)
        };
    assert(m1.len() == 128);
    frame::law_handshake_frame_roundtrip(0, m1);
    assert(b1.progress().messages =~= seq![request]);
    frame::law_handshake_frame_roundtrip(step, m2);
    noise::law_handshake(
        a_secret,
        b_secret,
        a_id,
        b_id,
        (a0, a1, a2),
        (b0, b1, b2),
        m1,
        m2,
    );
    assert(b0.reads(m1) == noise::first_message(b_secret, m1));
}

/// What each side of a TSO connection sends first: its identifier and its static
/// key.
pub open spec fn tso_info_bytes(id: Seq<u8>, key: Seq<u8>) -> Seq<u8> {
    id + key
}

/// What this side of a TSO connection sends first.
pub fn tso_info(my_id: &PeerId, key: &[u8; 32]) -> (info: Vec<u8>)
    ensures
        info@ == tso_info_bytes(my_id@, key@),
{
    let mut info: Vec<u8> = Vec::new();
    push_bytes(&mut info, my_id.0.as_slice());
    push_bytes(&mut info, key.as_slice());
    assert(info@ =~= tso_info_bytes(my_id@, key@));
    info
}

/// Reads what the other side of a TSO connection sent first.
pub fn parse_tso_info(info: &[u8; 64]) -> (r: (PeerId, [u8; 32]))
    ensures
        r.0@ == info@.subrange(0, 32),
        r.1@ == info@.subrange(32, 64),
{
    let s: &[u8] = info.as_slice();
    (PeerId(array_at(s, 0)), array_at(s, 32))
}

/// What one side sends first is what the other reads.
pub proof fn law_tso_info_roundtrip(id: Seq<u8>, key: Seq<u8>)
    requires
        id.len() == 32,
        key.len() == 32,
    ensures
        tso_info_bytes(id, key).len() == 64,
        tso_info_bytes(id, key).subrange(0, 32) == id,
        tso_info_bytes(id, key).subrange(32, 64) == key,
{
    assert(tso_info_bytes(id, key).subrange(0, 32) =~= id);
    assert(tso_info_bytes(id, key).subrange(32, 64) =~= key);
}

/// Whether the side `a` of a connection starts the handshake with `b`: the one
/// with the lesser identifier does.
pub open spec fn starts_handshake(a: Seq<u8>, b: Seq<u8>) -> bool {
    bytes::be_nat(a) < bytes::be_nat(b)
}

/// Of two different peers exactly one starts the handshake.
pub proof fn law_one_side_starts(a: Seq<u8>, b: Seq<u8>)
    requires
        a.len() == b.len(),
        a != b,
    ensures
        starts_handshake(a, b) != starts_handshake(b, a),
{
    if bytes::be_nat(a) == bytes::be_nat(b) {
        peer::lemma_be_nat_injective(a, b);
    }
}

/// What waits for whom in the handshake on a TSO connection.
#[derive(Debug)]
enum TsoState {
    SendingInfo,
    ReadingInfo,
    SendingFirst(InitiatorHandshake),
    ReadingAnswerHeader(InitiatorHandshake),
    ReadingAnswer(InitiatorHandshake, usize),
    ReadingFirstHeader,
    ReadingFirst(usize),
    SendingAnswer(ResponderHandshake, PeerId),
    Over,
}

/// The stage of the handshake on a TSO connection, as a value. From the first message
/// on, the Noise handshake that is kept belongs to it.
pub enum TsoStage {
    /// The first bytes are being sent.
    SendingInfo,
    /// The other side's first bytes are waited for.
    ReadingInfo,
    /// As the side that starts: the first message is being sent.
    SendingFirst(Handshake),
    /// The header of the answer is waited for.
    ReadingAnswerHeader(Handshake),
    /// An answer of some length is waited for.
    ReadingAnswer(Handshake, nat),
    /// As the other side: the header of the first message is waited for.
    ReadingFirstHeader,
    /// A first message of some length is waited for.
    ReadingFirst(nat),
    /// The answer to a peer is being sent.
    SendingAnswer(Handshake, Seq<u8>),
    /// The handshake is over.
    Over,
}

/// What is to be done next.
#[derive(Debug)]
pub enum TsoAction {
    /// Send these bytes, within so many seconds where a limit is given.
    Send(Vec<u8>, Option<u64>),
    /// Read so many bytes, within so many seconds.
    Read(usize, u64),
    /// The connection is established with this peer.
    Done(PeerId, Session),
    /// It failed.
    Failed(TransportError),
}

/// What came of what was to be done.
#[derive(Debug)]
pub enum TsoEvent {
    /// The bytes were sent.
    Sent,
    /// These bytes were read.
    Received(Vec<u8>),
    /// The time ran out.
    TimedOut,
    /// It failed for this reason.
    Failed(String),
}

/// The handshake on a TSO connection. Whoever runs it performs the actions and
/// hands back what came of them.
#[derive(Debug)]
pub struct TsoHandshake {
    my_id: PeerId,
    peer_id: PeerId,
    provider: NoiseProvider,
    state: TsoState,
}

/// How long the first bytes may take, in seconds.
pub const TSO_INFO_TIMEOUT_SECS: u64 = 15;

/// How long a message may take, in seconds.
pub const TSO_MESSAGE_TIMEOUT_SECS: u64 = 5;

/// What the error says where the time runs out in a stage. There is no limit on
/// the sending of messages.
pub open spec fn timeout_text(s: TsoStage) -> Seq<char> {
    match s {
        TsoStage::SendingInfo => "tso_handshake timeout sending identity"@,
        TsoStage::ReadingInfo => "tso_handshake timeout reading peer info"@,
        TsoStage::ReadingAnswerHeader(_) => "tso_handshake timeout reading ik2 header"@,
        TsoStage::ReadingAnswer(_, _) => "tso_handshake timeout reading ik2 payload"@,
        TsoStage::ReadingFirstHeader => "tso_handshake timeout reading ik1 header"@,
        TsoStage::ReadingFirst(_) => "tso_handshake timeout reading ik1 payload"@,
        _ => "tso_handshake timeout"@,
    }
}

/// How many bytes a stage waits for, if it waits for bytes.
pub open spec fn awaited(s: TsoStage) -> Option<nat> {
    match s {
        TsoStage::ReadingInfo => Some(64),
        TsoStage::ReadingAnswerHeader(_) => Some(8),
        TsoStage::ReadingAnswer(_, n) => Some(n),
        TsoStage::ReadingFirstHeader => Some(8),
        TsoStage::ReadingFirst(n) => Some(n),
        _ => None,
    }
}

/// Whether an event can come in a stage.
pub open spec fn fits(s: TsoStage, e: TsoEvent) -> bool {
    match e {
        TsoEvent::Sent => s is SendingInfo || s is SendingFirst || s is SendingAnswer,
        TsoEvent::Received(data) => awaited(s) == Some(data@.len()),
        TsoEvent::TimedOut => awaited(s) is Some || s is SendingInfo,
        TsoEvent::Failed(_) => !(s is Over),
    }
}

/// Whether the handshake is over with a Noise error.
pub open spec fn ends_in_noise(text: Seq<char>, after: TsoStage, a: TsoAction) -> bool {
    after is Over && a is Failed && is_noise_error(a->Failed_0, text)
}

/// Whether the handshake is over with a peer that is not the one that was wanted.
pub open spec fn ends_in_mismatch(after: TsoStage, a: TsoAction) -> bool {
    after is Over && a is Failed && is_connect_error(a->Failed_0, "peer_id mismatch"@)
}

/// Whether the handshake is over with the peer that was wanted, and with an encrypted
/// connection that starts from the keys of a handshake.
pub open spec fn ends_well(
    wanted: Seq<u8>,
    halves: noise::Halves,
    after: TsoStage,
    a: TsoAction,
) -> bool {
    after is Over && a is Done && a->Done_0@ == wanted && a->Done_1.halves() == halves
}

/// Whether the handshake of the side that starts is over with an answer: done with the
/// keys that it has once the answer is read.
pub open spec fn ends_with_answer(
    wanted: Seq<u8>,
    h: Handshake,
    answer: Seq<u8>,
    after: TsoStage,
    a: TsoAction,
) -> bool {
    exists|k: Handshake| #[trigger]
        noise::has_read(h, answer, k) && ends_well(
            wanted,
            noise::starting(true, k.keys()),
            after,
            a,
        )
}

/// Whether an action sends some bytes, without a limit of time.
pub open spec fn sends(a: TsoAction) -> bool {
    a is Send && a->Send_1 is None
}

/// What follows a stage: the next stage and action after an event, for a side with
/// an identifier and a secret static key that wants a peer.
pub open spec fn tso_follows(
    my_id: Seq<u8>,
    secret: Seq<u8>,
    wanted: Seq<u8>,
    before: TsoStage,
    event: TsoEvent,
    after: TsoStage,
    action: TsoAction,
) -> bool {
    match event {
        TsoEvent::TimedOut => after is Over && action is Failed && is_connect_error(
            action->Failed_0,
            timeout_text(before),
        ),
        TsoEvent::Failed(reason) => after is Over && action is Failed && action->Failed_0 is Io
            && action->Failed_0->Io_0@ == reason@,
        TsoEvent::Sent => match before {
            TsoStage::SendingInfo => after is ReadingInfo && action == TsoAction::Read(64, 15),
            TsoStage::SendingFirst(h) => after == TsoStage::ReadingAnswerHeader(h) && action
                == TsoAction::Read(8, 5),
            TsoStage::SendingAnswer(h, id) => if id == wanted {
                ends_well(wanted, noise::starting(false, h.keys()), after, action)
            } else {
                ends_in_mismatch(after, action)
            },
            _ => false,
        },
        TsoEvent::Received(data) => match before {
            TsoStage::ReadingInfo => {
                if starts_handshake(my_id, data@.subrange(0, 32)) {
                    after matches TsoStage::SendingFirst(h) && sends(action)
                        && first_sent(
                        secret,
                        data@.subrange(32, 64),
                        my_id,
                        h,
                        action->Send_0@,
                    )
                } else {
                    after is ReadingFirstHeader && action == TsoAction::Read(8, 5)
                }
            },
            TsoStage::ReadingAnswerHeader(h) => match handshake_len(
                data@,
                "ik2 payload too large"@,
            ) {
                Err(text) => after is Over && action is Failed && is_noise_error(
                    action->Failed_0,
                    text,
                ),
                Ok(n) => if n == 0 {
                    ends_in_noise(unanswered_text(h, Seq::empty()), after, action)
                } else {
                    after == TsoStage::ReadingAnswer(h, n) && action is Read && action->Read_0 == n
                        && action->Read_1 == 5
                },
            },
            TsoStage::ReadingAnswer(h, _) => match noise::brings(data@, h.reads(data@)) {
                None => ends_in_noise(unanswered_text(h, data@), after, action),
                Some((id, _)) => if id == wanted {
                    ends_with_answer(wanted, h, data@, after, action)
                } else {
                    ends_in_mismatch(after, action)
                },
            },
            TsoStage::ReadingFirstHeader => match handshake_len(data@, "ik1 payload too large"@) {
                Err(text) => after is Over && action is Failed && is_noise_error(
                    action->Failed_0,
                    text,
                ),
                Ok(n) => if n == 0 {
                    ends_in_noise(unrequested_text(secret, Seq::empty()), after, action)
                } else {
                    after == TsoStage::ReadingFirst(n) && action is Read && action->Read_0 == n
                        && action->Read_1 == 5
                },
            },
            TsoStage::ReadingFirst(_) => match requested(secret, data@) {
                None => ends_in_noise(unrequested_text(secret, data@), after, action),
                Some((id, _)) => answers(my_id, secret, data@, id, after, action),
            },
            _ => false,
        },
    }
}

/// Whether the answer to a peer's first message is being sent.
pub open spec fn answers(
    my_id: Seq<u8>,
    secret: Seq<u8>,
    request: Seq<u8>,
    id: Seq<u8>,
    after: TsoStage,
    action: TsoAction,
) -> bool {
    after matches TsoStage::SendingAnswer(h, to) && to == id && sends(action)
        && answer_sent(secret, request, my_id, 0, h, action->Send_0@)
}

impl TsoHandshake {
    /// The stage of the handshake.
    pub closed spec fn stage(&self) -> TsoStage {
        stage_of(self.state)
    }

    /// This side's identifier.
    pub closed spec fn local(&self) -> Seq<u8> {
        self.my_id@
    }

    /// The identifier that the other side should have.
    pub closed spec fn wanted(&self) -> Seq<u8> {
        self.peer_id@
    }

    /// This side's secret static key.
    pub closed spec fn secret(&self) -> Seq<u8> {
        self.provider.key()
    }

    /// Starts a handshake with a peer under a secret static key, and says what is
    /// to be sent first.
    pub fn start(my_id: PeerId, peer_id: PeerId, secret: [u8; 32]) -> (r: (Self, TsoAction))
        ensures
            r.0.stage() is SendingInfo,
            r.0.local() == my_id@,
            r.0.wanted() == peer_id@,
            r.0.secret() == secret@,
            r.1 is Send,
            r.1->Send_0@ == tso_info_bytes(my_id@, primitives::x25519_public_key(secret@)),
            r.1->Send_0@.len() == 64,
            r.1->Send_1 == Some(15u64),
    {
        let provider: NoiseProvider = NoiseProvider::new(secret);
        let key: [u8; 32] = provider.local_pubkey();
        let info: Vec<u8> = tso_info(&my_id, &key);
        (
            TsoHandshake { my_id, peer_id, provider, state: TsoState::SendingInfo },
            TsoAction::Send(info, Some(TSO_INFO_TIMEOUT_SECS)),
        )
    }

    /// The end of the handshake with a peer.
    fn conclude(wanted: &PeerId, id: PeerId, session: Result<Session, TransportError>) -> (r:
        TsoAction)
        requires
            session is Ok,
        ensures
            if id@ == wanted@ {
                ends_well(wanted@, session->Ok_0.halves(), TsoStage::Over, r)
            } else {
                ends_in_mismatch(TsoStage::Over, r)
            },
    {
        proof {
            peer::lemma_peer_id_ext(id, *wanted);
        }
        if id != *wanted {
            return TsoAction::Failed(TransportError::Connect("peer_id mismatch".to_string()));
        }
        match session {
            Err(e) => TsoAction::Failed(e),
            Ok(s) => TsoAction::Done(id, s),
        }
    }

    /// The text for a stage in which the time ran out.
    fn timeout_error(state: &TsoState) -> (s: String)
        ensures
            match *state {
                TsoState::SendingInfo => s@ == "tso_handshake timeout sending identity"@,
                TsoState::ReadingInfo => s@ == "tso_handshake timeout reading peer info"@,
                TsoState::ReadingAnswerHeader(_) => s@
                    == "tso_handshake timeout reading ik2 header"@,
                TsoState::ReadingAnswer(_, _) => s@
                    == "tso_handshake timeout reading ik2 payload"@,
                TsoState::ReadingFirstHeader => s@ == "tso_handshake timeout reading ik1 header"@,
                TsoState::ReadingFirst(_) => s@ == "tso_handshake timeout reading ik1 payload"@,
                _ => s@ == "tso_handshake timeout"@,
            },
    {
        match state {
            TsoState::SendingInfo => "tso_handshake timeout sending identity".to_string(),
            TsoState::ReadingInfo => "tso_handshake timeout reading peer info".to_string(),
            TsoState::ReadingAnswerHeader(_) => {
                "tso_handshake timeout reading ik2 header".to_string()
            },
            TsoState::ReadingAnswer(_, _) => {
                "tso_handshake timeout reading ik2 payload".to_string()
            },
            TsoState::ReadingFirstHeader => "tso_handshake timeout reading ik1 header".to_string(),
            TsoState::ReadingFirst(_) => "tso_handshake timeout reading ik1 payload".to_string(),
            _ => "tso_handshake timeout".to_string(),
        }
    }

    /// What follows, and what is to be done next, after an event that can come in
    /// the present stage.
    pub fn step(self, event: TsoEvent) -> (r: (Self, TsoAction))
        requires
            fits(self.stage(), event),
        ensures
            r.0.local() == self.local(),
            r.0.wanted() == self.wanted(),
            r.0.secret() == self.secret(),
            tso_follows(
                self.local(),
                self.secret(),
                self.wanted(),
                self.stage(),
                event,
                r.0.stage(),
                r.1,
            ),
    {
        let TsoHandshake { my_id, peer_id, provider, state } = self;
        let (next, action): (TsoState, TsoAction) = match event {
            TsoEvent::TimedOut => (
                TsoState::Over,
                TsoAction::Failed(TransportError::Connect(TsoHandshake::timeout_error(&state))),
            ),
            TsoEvent::Failed(reason) => (
                TsoState::Over,
                TsoAction::Failed(TransportError::Io(reason)),
            ),
            TsoEvent::Sent => match state {
                TsoState::SendingInfo => (
                    TsoState::ReadingInfo,
                    TsoAction::Read(64, TSO_INFO_TIMEOUT_SECS),
                ),
                TsoState::SendingFirst(h) => (
                    TsoState::ReadingAnswerHeader(h),
                    TsoAction::Read(8, TSO_MESSAGE_TIMEOUT_SECS),
                ),
                TsoState::SendingAnswer(h, id) => {
                    let session: Result<Session, TransportError> = h.finish();
                    (TsoState::Over, TsoHandshake::conclude(&peer_id, id, session))
                },
                other => (other, TsoAction::Failed(TransportError::NoPath)),
            },
            TsoEvent::Received(data) => TsoHandshake::received(
                &my_id,
                &peer_id,
                &provider,
                state,
                data,
            ),
        };
        (TsoHandshake { my_id, peer_id, provider, state: next }, action)
    }

    /// What follows the bytes that were waited for.
    fn received(
        my_id: &PeerId,
        peer_id: &PeerId,
        provider: &NoiseProvider,
        state: TsoState,
        data: Vec<u8>,
    ) -> (r: (TsoState, TsoAction))
        requires
            awaited(stage_of(state)) == Some(data@.len()),
        ensures
            tso_follows(
                my_id@,
                provider.key(),
                peer_id@,
                stage_of(state),
                TsoEvent::Received(data),
                stage_of(r.0),
                r.1,
            ),
    {
        match state {
            TsoState::ReadingInfo => {
                let info: [u8; 64] = array_at(data.as_slice(), 0);
                assert(info@ =~= data@);
                let (their_id, their_key): (PeerId, [u8; 32]) = parse_tso_info(&info);
                if my_id.precedes(&their_id) {
                    match InitiatorHandshake::start(provider, &their_key, my_id) {
                        Err(e) => (TsoState::Over, TsoAction::Failed(e)),
                        Ok((h, f)) => (TsoState::SendingFirst(h), TsoAction::Send(f, None)),
                    }
                } else {
                    (
                        TsoState::ReadingFirstHeader,
                        TsoAction::Read(8, TSO_MESSAGE_TIMEOUT_SECS),
                    )
                }
            },
            TsoState::ReadingAnswerHeader(h) => {
                let header: [u8; 8] = array_at(data.as_slice(), 0);
                assert(header@ =~= data@);
                match InitiatorHandshake::answer_len(&header) {
                    Err(e) => (TsoState::Over, TsoAction::Failed(e)),
                    Ok(n) => {
                        if n == 0 {
                            let none: Vec<u8> = Vec::new();
                            assert(none@ =~= Seq::empty());
                            match h.finish(none.as_slice()) {
                                Err(e) => (TsoState::Over, TsoAction::Failed(e)),
                                Ok(est) => (
                                    TsoState::Over,
                                    TsoHandshake::conclude(peer_id, est.peer_id, Ok(est.session)),
                                ),
                            }
                        } else {
                            (
                                TsoState::ReadingAnswer(h, n),
                                TsoAction::Read(n, TSO_MESSAGE_TIMEOUT_SECS),
                            )
                        }
                    },
                }
            },
            TsoState::ReadingAnswer(h, _) => match h.finish(data.as_slice()) {
                Err(e) => (TsoState::Over, TsoAction::Failed(e)),
                Ok(est) => (
                    TsoState::Over,
                    TsoHandshake::conclude(peer_id, est.peer_id, Ok(est.session)),
                ),
            },
            TsoState::ReadingFirstHeader => {
                let header: [u8; 8] = array_at(data.as_slice(), 0);
                assert(header@ =~= data@);
                match ResponderHandshake::request_len(&header) {
                    Err(e) => (TsoState::Over, TsoAction::Failed(e)),
                    Ok(n) => {
                        if n == 0 {
                            let none: Vec<u8> = Vec::new();
                            assert(none@ =~= Seq::empty());
                            TsoHandshake::answer(my_id, provider, none.as_slice())
                        } else {
                            (
                                TsoState::ReadingFirst(n),
                                TsoAction::Read(n, TSO_MESSAGE_TIMEOUT_SECS),
                            )
                        }
                    },
                }
            },
            TsoState::ReadingFirst(_) => TsoHandshake::answer(my_id, provider, data.as_slice()),
            other => (other, TsoAction::Failed(TransportError::NoPath)),
        }
    }

    /// What follows the first message, as the side that did not start.
    fn answer(my_id: &PeerId, provider: &NoiseProvider, request: &[u8]) -> (r: (
        TsoState,
        TsoAction,
    ))
        ensures
            request@.len() < 128 ==> ends_in_noise(
                unrequested_text(provider.key(), request@),
                stage_of(r.0),
                r.1,
            ),
            match requested(provider.key(), request@) {
                None => ends_in_noise(
                    unrequested_text(provider.key(), request@),
                    stage_of(r.0),
                    r.1,
                ),
                Some((id, _)) => answers(
                    my_id@,
                    provider.key(),
                    request@,
                    id,
                    stage_of(r.0),
                    r.1,
                ),
            },
    {
        match ResponderHandshake::respond(provider, request, my_id, 0) {
            Err(e) => (TsoState::Over, TsoAction::Failed(e)),
            Ok((h, id, _, f)) => (TsoState::SendingAnswer(h, id), TsoAction::Send(f, None)),
        }
    }
}

/// The stage that a state stands for.
spec fn stage_of(s: TsoState) -> TsoStage {
    match s {
        TsoState::SendingInfo => TsoStage::SendingInfo,
        TsoState::ReadingInfo => TsoStage::ReadingInfo,
        TsoState::SendingFirst(h) => TsoStage::SendingFirst(h.handshake()),
        TsoState::ReadingAnswerHeader(h) => TsoStage::ReadingAnswerHeader(h.handshake()),
        TsoState::ReadingAnswer(h, n) => TsoStage::ReadingAnswer(h.handshake(), n as nat),
        TsoState::ReadingFirstHeader => TsoStage::ReadingFirstHeader,
        TsoState::ReadingFirst(n) => TsoStage::ReadingFirst(n as nat),
        TsoState::SendingAnswer(h, id) => TsoStage::SendingAnswer(h.handshake(), id@),
        TsoState::Over => TsoStage::Over,
    }
}

/// How far a stage is from the start.
pub open spec fn tso_rank(s: TsoStage) -> nat {
    match s {
        TsoStage::SendingInfo => 0,
        TsoStage::ReadingInfo => 1,
        TsoStage::SendingFirst(_) => 2,
        TsoStage::ReadingFirstHeader => 2,
        TsoStage::ReadingAnswerHeader(_) => 3,
        TsoStage::ReadingFirst(_) => 3,
        TsoStage::ReadingAnswer(_, _) => 4,
        TsoStage::SendingAnswer(_, _) => 4,
        TsoStage::Over => 5,
    }
}

/// A handshake that is done is done with the peer that was wanted; it is over
/// exactly when it is done or failed; and every event brings it nearer to its end,
/// so that it is over after five events at most.
pub proof fn law_tso_handshake(
    my_id: Seq<u8>,
    secret: Seq<u8>,
    wanted: Seq<u8>,
    before: TsoStage,
    event: TsoEvent,
    after: TsoStage,
    action: TsoAction,
)
    requires
        fits(before, event),
        tso_follows(my_id, secret, wanted, before, event, after, action),
    ensures
        action is Done ==> action->Done_0@ == wanted,
        after is Over <==> action is Done || action is Failed,
        tso_rank(before) < tso_rank(after) <= 5,
{
}

/// Whether a side with an identifier and a secret static key that wants a peer goes
/// through some stages, from the start, with what came of each action and the actions
/// that follow.
pub open spec fn tso_run(
    my_id: Seq<u8>,
    secret: Seq<u8>,
    wanted: Seq<u8>,
    events: Seq<TsoEvent>,
    stages: Seq<TsoStage>,
    actions: Seq<TsoAction>,
) -> bool {
    &&& stages.len() == events.len() + 1
    &&& actions.len() == events.len()
    &&& stages[0] is SendingInfo
    &&& forall|i: int|
        0 <= i < events.len() ==> tso_follows(
            my_id,
            secret,
            wanted,
            #[trigger] stages[i],
            events[i],
            stages[i + 1],
            actions[i],
        )
}

/// Whether some bytes were read.
pub open spec fn reads(e: TsoEvent, data: Seq<u8>) -> bool {
    e matches TsoEvent::Received(d) && d@ == data
}

/// The header of a handshake frame announces the length of the message in it.
proof fn lemma_handshake_len(m: Seq<u8>, too_large: Seq<char>)
    requires
        m.len() <= MAX_HANDSHAKE_PAYLOAD,
    ensures
        ({
            let f = frame::handshake_frame_bytes(0, m);
            &&& f.len() == 8 + m.len()
            &&& f.skip(8) == m
            &&& handshake_len(f.subrange(0, 8), too_large) == Ok::<nat, Seq<char>>(m.len())
        }),
{
    let f = frame::handshake_frame_bytes(0, m);
    frame::law_handshake_frame_roundtrip(0, m);
    bytes::lemma_be_bytes_len(m.len(), 3);
    let h = f.subrange(0, 8);
    assert(h.subrange(0, 3) =~= f.subrange(0, 3));
    assert(h.subrange(5, 8) =~= f.subrange(5, 8));
}

/// Two sides of a TSO connection that want each other and read what the other sends:
/// each waits for just what comes, both end done with each other, and what one encrypts
/// from then on, the other decrypts. Of two different peers one starts the handshake;
/// here it is `a`.
pub proof fn law_tso_connect(
    a_id: Seq<u8>,
    b_id: Seq<u8>,
    a_secret: Seq<u8>,
    b_secret: Seq<u8>,
    a: (Seq<TsoEvent>, Seq<TsoStage>, Seq<TsoAction>),
    b: (Seq<TsoEvent>, Seq<TsoStage>, Seq<TsoAction>),
)
    requires
        a_id.len() == 32,
        b_id.len() == 32,
        starts_handshake(a_id, b_id),
        a_secret.len() == 32,
        b_secret.len() == 32,
        a.0.len() == 5,
        b.0.len() == 5,
        tso_run(a_id, a_secret, b_id, a.0, a.1, a.2),
        tso_run(b_id, b_secret, a_id, b.0, b.1, b.2),
        a.0[0] is Sent,
        reads(a.0[1], tso_info_bytes(b_id, primitives::x25519_public_key(b_secret))),
        a.0[2] is Sent,
        reads(a.0[3], b.2[3]->Send_0@.subrange(0, 8)),
        reads(a.0[4], b.2[3]->Send_0@.skip(8)),
        b.0[0] is Sent,
        reads(b.0[1], tso_info_bytes(a_id, primitives::x25519_public_key(a_secret))),
        reads(b.0[2], a.2[1]->Send_0@.subrange(0, 8)),
        reads(b.0[3], a.2[1]->Send_0@.skip(8)),
        b.0[4] is Sent,
    ensures
        forall|i: int| 0 <= i < 5 ==> fits(#[trigger] a.1[i], a.0[i]),
        forall|i: int| 0 <= i < 5 ==> fits(#[trigger] b.1[i], b.0[i]),
        a.2[4] is Done && a.2[4]->Done_0@ == b_id,
        b.2[4] is Done && b.2[4]->Done_0@ == a_id,
        noise::in_step(a.2[4]->Done_1.halves(), b.2[4]->Done_1.halves()),
        noise::in_step(b.2[4]->Done_1.halves(), a.2[4]->Done_1.halves()),
{
    let a_key = primitives::x25519_public_key(a_secret);
    let b_key = primitives::x25519_public_key(b_secret);
    law_tso_info_roundtrip(a_id, a_key);
    law_tso_info_roundtrip(b_id, b_key);
    // Both have sent who they are, and read who the other is.
    assert(a.1[0] is SendingInfo && b.1[0] is SendingInfo);
    assert(a.1[1] is ReadingInfo && b.1[1] is ReadingInfo);
    assert(a.1[2] is SendingFirst);
    assert(b.1[2] is ReadingFirstHeader);
    // The first message.
    let h1 = a.1[2]->SendingFirst_0;
    let f1 = a.2[1]->Send_0@;
    assert(first_sent(a_secret, b_key, a_id, h1, f1));
    let (a0, m1) = choose|h: Handshake, m: Seq<u8>|
        {
            &&& noise::fresh_initiator(h, a_secret, b_key)
            &&& #[trigger] noise::has_written(h, a_id, h1, m)
            &&& f1 == frame::handshake_frame_bytes(0, m)
        };
    lemma_handshake_len(m1, "ik1 payload too large"@);
    assert(b.1[3] == TsoStage::ReadingFirst(128));
    assert(noise::first_message(b_secret, m1) == Some((a_id, a_key)));
    assert(a_id.subrange(0, 32) =~= a_id);
    assert(requested(b_secret, m1) == Some((a_id, a_key)));
    // The answer.
    let h2 = b.1[4]->SendingAnswer_0;
    let f2 = b.2[3]->Send_0@;
    assert(answers(b_id, b_secret, m1, a_id, b.1[4], b.2[3]));
    let (b0, b1, m2) = choose|h: Handshake, k: Handshake, m: Seq<u8>|
        {
            &&& noise::fresh_responder(h, b_secret)
            &&& #[trigger] noise::has_read(h, m1, k)
            &&& #[trigger] noise::has_written(k, b_id, h2, m)
            &&& f2 == frame::handshake_frame_bytes(0, m)
        };
    lemma_handshake_len(m2, "ik2 payload too large"@);
    assert(a.1[3] == TsoStage::ReadingAnswerHeader(h1));
    assert(a.1[4] == TsoStage::ReadingAnswer(h1, 80));
    assert(h1.progress().messages =~= seq![m1]);
    assert(b1.progress().messages =~= seq![m1]);
    assert(noise::same_handshake(h1.progress(), b1.progress()));
    assert(h1.reads(m2) == Some((b_id, b_key)));
    assert(b_id.subrange(0, 32) =~= b_id);
    // What both end with.
    assert(ends_with_answer(b_id, h1, m2, a.1[5], a.2[4]));
    let a2 = choose|k: Handshake| #[trigger]
        noise::has_read(h1, m2, k) && ends_well(
            b_id,
            noise::starting(true, k.keys()),
            a.1[5],
            a.2[4],
        );
    assert(ends_well(a_id, noise::starting(false, h2.keys()), b.1[5], b.2[4]));
    law_connect(a_secret, b_secret, a_id, b_id, 0, h1, a2, h2, f1, f2);
}

/// Over QUIC the address of every endpoint is tried that is one for IPv6, and of every one
/// that a STUN server saw, and no other address. Those of two lists, one after the other,
/// are those of the first and then those of the second.
pub proof fn law_quic_targets(eps: Seq<Endpoint>, more: Seq<Endpoint>)
    ensures
        forall|i: int|
            0 <= i < eps.len() && ((#[trigger] eps[i]).kind == EndpointKind::IPv6 || eps[i].kind
                == EndpointKind::STUN) ==> quic_addresses(eps).contains(eps[i].addr),
        forall|a: SocketAddr| #[trigger]
            quic_addresses(eps).contains(a) ==> exists|i: int|
                0 <= i < eps.len() && (#[trigger] eps[i]).addr == a && (eps[i].kind
                    == EndpointKind::IPv6 || eps[i].kind == EndpointKind::STUN),
        quic_addresses(eps + more) == quic_addresses(eps) + quic_addresses(more),
    decreases eps.len() + more.len(),
{
    if eps.len() > 0 {
        let front = eps.drop_last();
        let last = eps.last();
        let q = quic_addresses(front);
        let r = quic_addresses(eps);
        law_quic_targets(front, Seq::empty());
        assert forall|i: int|
            0 <= i < eps.len() && ((#[trigger] eps[i]).kind == EndpointKind::IPv6 || eps[i].kind
                == EndpointKind::STUN) implies r.contains(eps[i].addr) by {
            if i < front.len() {
                assert(front[i] == eps[i]);
                let j = choose|j: int| 0 <= j < q.len() && q[j] == eps[i].addr;
                assert(r[j] == eps[i].addr);
            } else {
                assert(r[r.len() - 1] == last.addr);
            }
        }
        assert forall|a: SocketAddr| #[trigger] r.contains(a) implies exists|i: int|
            0 <= i < eps.len() && (#[trigger] eps[i]).addr == a && (eps[i].kind
                == EndpointKind::IPv6 || eps[i].kind == EndpointKind::STUN) by {
            let j = choose|j: int| 0 <= j < r.len() && r[j] == a;
            if j < q.len() {
                assert(q[j] == a);
                assert(q.contains(a));
                let i = choose|i: int|
                    0 <= i < front.len() && (#[trigger] front[i]).addr == a && (front[i].kind
                        == EndpointKind::IPv6 || front[i].kind == EndpointKind::STUN);
                assert(eps[i] == front[i]);
            } else {
                assert(eps[eps.len() - 1].addr == a);
            }
        }
    }
    if more.len() > 0 {
        law_quic_targets(eps, more.drop_last());
        assert((eps + more).drop_last() =~= eps + more.drop_last());
        assert(quic_addresses(eps + more) =~= quic_addresses(eps) + quic_addresses(more));
    } else {
        assert(eps + more =~= eps);
        assert(quic_addresses(eps) + quic_addresses(more) =~= quic_addresses(eps));
    }
}

/// The header of a handshake frame is taken exactly where it starts with "LAI" and the
/// version 1, and announces 65536 bytes at most: for so many.
pub proof fn law_handshake_header(header: Seq<u8>, too_large: Seq<char>)
    requires
        header.len() == 8,
    ensures
        handshake_len(header, too_large) is Ok <==> header[0] == 76 && header[1] == 65 && header[2]
            == 73 && header[3] == 1 && bytes::be_nat(header.subrange(5, 8)) <= 65536,
        handshake_len(header, too_large) matches Ok(n) ==> n == bytes::be_nat(
            header.subrange(5, 8),
        ),
        header[0] == 76 && header[1] == 65 && header[2] == 73 && header[3] == 1
            && bytes::be_nat(header.subrange(5, 8)) > 65536 ==> handshake_len(header, too_large)
            == Err::<nat, Seq<char>>(too_large),
{
    let h = header.subrange(0, 3);
    let g = frame::magic();
    assert(h[0] == header[0] && h[1] == header[1] && h[2] == header[2]);
    assert(g[0] == 76 && g[1] == 65 && g[2] == 73);
    if header[0] == 76 && header[1] == 65 && header[2] == 73 {
        assert(h =~= g);
    }
}

/// The handshake on a TSO connection is done only with the peer that was wanted: the side
/// that starts is done only where the answer brings the identifier of that peer, and the
/// other only where the first message brought it; and then it is done. Where another peer
/// is there, or none can be told, it fails.
pub proof fn law_tso_peer_checked(
    my_id: Seq<u8>,
    secret: Seq<u8>,
    wanted: Seq<u8>,
    before: TsoStage,
    event: TsoEvent,
    after: TsoStage,
    action: TsoAction,
)
    requires
        tso_follows(my_id, secret, wanted, before, event, after, action),
        fits(before, event),
    ensures
        before is ReadingAnswer && event is Received ==> ({
            let data = event->Received_0@;
            let read = before->ReadingAnswer_0.reads(data);
            let (payload, _) = read->0;
            let id = payload.subrange(0, 32);
            if read is Some && data.len() <= 65535 && 32 <= payload.len()
                <= 4096 && id == wanted {
                action is Done
            } else {
                action is Failed
            }
        }),
        before is SendingAnswer && event is Sent ==> if before->SendingAnswer_1 == wanted {
            action is Done
        } else {
            action is Failed
        },
        action matches TsoAction::Done(p, _) ==> p@ == wanted && (before is ReadingAnswer
            || before is SendingAnswer),
        before is ReadingFirst && event is Received ==> ({
            let read = noise::first_message(secret, event->Received_0@);
            let (payload, _) = read->0;
            after is SendingAnswer ==> read is Some && after->SendingAnswer_1
                == payload.subrange(0, 32)
        }),
        event is TimedOut || event is Failed ==> action is Failed,
{
}

/// What came on a stream without the header of a frame is data as it is; of a frame that is
/// cut off nothing is taken but its kind; and of one that is whole its payload, and nothing
/// that follows it.
pub proof fn law_received(data: Seq<u8>)
    ensures
        received(data) is None <==> data.len() == 0 || (frame::frame_header(
            data,
        ) matches Some((_, t, _, _)) && t == FrameType::Headers),
        data.len() > 0 && frame::frame_header(data) is None ==> received(data) == Some(
            (FrameType::Data, data),
        ),
        frame::frame_header(data) matches Some((_, t, len, at)) ==> t != FrameType::Headers ==> {
            &&& received(data) matches Some((kind, payload)) && kind == t && payload.len() == if at
                + len <= data.len() {
                len
            } else {
                0
            } && forall|i: int| 0 <= i < payload.len() ==> #[trigger] payload[i] == data[at + i]
        },
{
}

/// Of two peers that reach each other at the same time, the one starts the handshake whose
/// identifier has the smaller byte where the two first differ.
pub proof fn law_smaller_starts(a: Seq<u8>, b: Seq<u8>, i: int)
    requires
        a.len() == b.len(),
        0 <= i < a.len(),
        forall|j: int| 0 <= j < i ==> a[j] == b[j],
        a[i] < b[i],
    ensures
        starts_handshake(a, b),
        !starts_handshake(b, a),
{
    peer::lemma_first_difference(a, b, i);
}

/// What a peer reads on a TSO connection, and for how long at most: the 64 bytes of who the
/// other is, for which it waits fifteen seconds; the eight bytes of a header, and then just
/// as many bytes as the header announces, for each of which it waits five.
pub proof fn law_tso_reads(
    my_id: Seq<u8>,
    secret: Seq<u8>,
    wanted: Seq<u8>,
    before: TsoStage,
    event: TsoEvent,
    after: TsoStage,
    action: TsoAction,
)
    requires
        tso_follows(my_id, secret, wanted, before, event, after, action),
        fits(before, event),
    ensures
        before is SendingInfo && event is Sent ==> action == TsoAction::Read(64, 15),
        before is SendingFirst && event is Sent ==> action == TsoAction::Read(8, 5),
        before is ReadingInfo && event is Received ==> (bytes::be_nat(my_id) >= bytes::be_nat(
            event->Received_0@.subrange(0, 32),
        ) <==> action == TsoAction::Read(8, 5)),
        before is ReadingInfo && event is Received ==> (bytes::be_nat(my_id) < bytes::be_nat(
            event->Received_0@.subrange(0, 32),
        ) <==> action is Send),
        action matches TsoAction::Read(n, secs) ==> (before is ReadingAnswerHeader
            || before is ReadingFirstHeader) ==> secs == 5 && n == bytes::be_nat(
            event->Received_0@.subrange(5, 8),
        ) && 0 < n <= 65536,
        action is Read && event is Received ==> before is ReadingInfo
            || before is ReadingAnswerHeader || before is ReadingFirstHeader,
{
    if before is ReadingAnswerHeader && event is Received {
        law_handshake_header(event->Received_0@, "ik2 payload too large"@);
    }
    if before is ReadingFirstHeader && event is Received {
        law_handshake_header(event->Received_0@, "ik1 payload too large"@);
    }
}

} // verus!
