//! What the daemon decides: what it tells of itself, whom it lets in, and what it
//! does when something happens.
use crate::bytes;
use crate::bytes::{all_zero, array_at, push_bytes};
use crate::capabilities::Capabilities;
use crate::clock;
use crate::clock::unix_seconds;
use crate::endpoint;
use crate::endpoint::{AddrView, Endpoint, EndpointKind, EndpointView, SocketAddr};
use crate::error::CoreError;
use crate::frame;
use crate::frame::{decode_frame_header, encode_frame, FrameType};
use crate::invite;
use crate::invite::{InviteCode, InviteView};
use crate::peer;
use crate::peer::PeerId;
use crate::primitives;
use crate::primitives::ed25519_verify;
use crate::session;
use crate::stun;
use crate::stun::{pick_global_ipv6, NatProbeResult, NatType};
use crate::text::concat2;
use crate::transport;
use crate::transport::TransportError;
use vstd::prelude::*;

verus! {

/// What can go wrong with the daemon.
#[derive(Debug)]
pub enum DaemonError {
    Config(String),
    Identity(String),
    Dht(String),
    Transport(String),
}

impl DaemonError {
    /// The text of the error.
    pub open spec fn message(&self) -> Seq<char> {
        match self {
            DaemonError::Config(s) => "config: "@ + s@,
            DaemonError::Identity(s) => "identity: "@ + s@,
            DaemonError::Dht(s) => "dht: "@ + s@,
            DaemonError::Transport(s) => "transport: "@ + s@,
        }
    }

    /// The text of the error.
    pub fn text(&self) -> (s: String)
        ensures
            s@ == self.message(),
    {
        match self {
            DaemonError::Config(s) => concat2("config: ", s.as_str()),
            DaemonError::Identity(s) => concat2("identity: ", s.as_str()),
            DaemonError::Dht(s) => concat2("dht: ", s.as_str()),
            DaemonError::Transport(s) => concat2("transport: ", s.as_str()),
        }
    }

    /// An error of the transport, as one of the daemon.
    pub fn from_transport(e: &TransportError) -> (r: Self)
        ensures
            r is Transport,
            r->Transport_0@ == e.message(),
    {
        DaemonError::Transport(e.text())
    }

    /// An error of the core types, as one of the daemon.
    pub fn from_core(e: &CoreError) -> (r: Self)
        ensures
            r is Transport,
            r->Transport_0@ == e.message(),
    {
        DaemonError::Transport(e.text())
    }
}

/// The IPv6 address under which the daemon can be reached: the first of the
/// machine's that is known everywhere, where there is IPv6 at all.
pub fn own_ipv6(probe: &NatProbeResult, addrs: &[[u8; 16]]) -> (r: Option<[u8; 16]>)
    ensures
        match r {
            Some(a) => {
                &&& probe.ipv6_inbound
                &&& exists|i: int|
                    {
                        &&& 0 <= i < addrs@.len()
                        &&& #[trigger] addrs@[i] == a
                        &&& stun::is_global_unicast(a@)
                        &&& forall|j: int|
                            0 <= j < i ==> !stun::is_global_unicast((#[trigger] addrs@[j])@)
                    }
            },
            None => !probe.ipv6_inbound || forall|j: int|
                0 <= j < addrs@.len() ==> !stun::is_global_unicast((#[trigger] addrs@[j])@),
        },
{
    if probe.ipv6_inbound {
        pick_global_ipv6(addrs)
    } else {
        None
    }
}

/// The address that the daemon binds to: any, of IPv6 where it has such an address,
/// with a port that the machine picks.
pub fn bind_address(has_ipv6: bool) -> (r: SocketAddr)
    ensures
        r@ == if has_ipv6 {
            AddrView::V6 {
                octets: Seq::new(16, |i: int| 0u8),
                port: 0,
                flowinfo: 0,
                scope_id: 0,
            }
        } else {
            AddrView::V4 { octets: seq![0u8, 0u8, 0u8, 0u8], port: 0 }
        },
{
    if has_ipv6 {
        let ip: [u8; 16] = [0u8; 16];
        assert(ip@ =~= Seq::new(16, |i: int| 0u8));
        SocketAddr::v6(ip, 0)
    } else {
        SocketAddr::v4(0, 0, 0, 0, 0)
    }
}

/// The first of the ports for simultaneous connections that the daemon makes known.
pub const TSO_FIRST_PORT: u16 = 50000;

/// How many of these ports there are.
pub const TSO_PORTS: u16 = 8;

/// An endpoint to be believed for five minutes.
pub open spec fn fresh_endpoint(addr: AddrView, kind: EndpointKind) -> EndpointView {
    EndpointView { addr, kind, ttl_seconds: 300 }
}

/// The endpoints of the daemon: its IPv6 address, then the address that the outside
/// sees, both with the port of the transport, and then the ports for simultaneous
/// connections at the address that the outside sees.
pub open spec fn endpoints_of(
    ipv6: Option<[u8; 16]>,
    mapped: Option<SocketAddr>,
    port: u16,
) -> Seq<EndpointView> {
    let first: Seq<EndpointView> = match ipv6 {
        Some(ip) => seq![
            fresh_endpoint(
                AddrView::V6 { octets: ip@, port, flowinfo: 0, scope_id: 0 },
                EndpointKind::IPv6,
            ),
        ],
        None => Seq::empty(),
    };
    match mapped {
        Some(a) => first.push(fresh_endpoint(a@.ip_at(port), EndpointKind::STUN)) + tso_endpoints(
            a,
            8,
        ),
        None => first,
    }
}

/// The first of the endpoints for simultaneous connections at an address.
pub open spec fn tso_endpoints(a: SocketAddr, count: nat) -> Seq<EndpointView> {
    Seq::new(
        count,
        |i: int| fresh_endpoint(a@.ip_at((TSO_FIRST_PORT + i) as u16), EndpointKind::TSO),
    )
}

/// The endpoints of the daemon.
pub fn own_endpoints(
    ipv6: Option<[u8; 16]>,
    mapped: Option<SocketAddr>,
    port: u16,
) -> (r: Vec<Endpoint>)
    ensures
        endpoint::endpoint_views(r@) == endpoints_of(ipv6, mapped, port),
{
    let mut r: Vec<Endpoint> = Vec::new();
    match ipv6 {
        Some(ip) => {
            r.push(Endpoint::new(SocketAddr::v6(ip, port), EndpointKind::IPv6));
        },
        None => {},
    }
    let ghost first = endpoint::endpoint_views(r@);
    match mapped {
        Some(a) => {
            r.push(Endpoint::new(a.ip_at(port), EndpointKind::STUN));
            let ghost head = first.push(fresh_endpoint(a@.ip_at(port), EndpointKind::STUN));
            assert(endpoint::endpoint_views(r@) =~= head + tso_endpoints(a, 0));
            let mut i: u16 = 0;
            while i < TSO_PORTS
                invariant
                    i <= TSO_PORTS,
                    endpoint::endpoint_views(r@) == head + tso_endpoints(a, i as nat),
                decreases TSO_PORTS - i,
            {
                let ghost before = endpoint::endpoint_views(r@);
                let e: Endpoint = Endpoint::new(a.ip_at(TSO_FIRST_PORT + i), EndpointKind::TSO);
                r.push(e);
                proof {
                    assert(endpoint::endpoint_views(r@) =~= before.push(e@));
                    assert(tso_endpoints(a, (i + 1) as nat) =~= tso_endpoints(a, i as nat).push(
                        e@,
                    ));
                    assert(endpoint::endpoint_views(r@) =~= head + tso_endpoints(
                        a,
                        (i + 1) as nat,
                    ));
                }
                i = i + 1;
            }
        },
        None => {},
    }
    assert(endpoint::endpoint_views(r@) =~= endpoints_of(ipv6, mapped, port));
    r
}

/// Whether a node can relay for others: behind a cone NAT, or with inbound IPv6.
pub open spec fn can_relay(probe: NatProbeResult) -> bool {
    probe.nat_type == NatType::Cone || probe.ipv6_inbound
}

/// What the daemon offers to others.
pub fn own_capabilities(probe: &NatProbeResult) -> (r: Capabilities)
    ensures
        r.bits == (if probe.ipv6_inbound {
            Capabilities::IPV6_INBOUND
        } else {
            0u8
        }) | (if can_relay(*probe) {
            Capabilities::RELAY_CAPABLE
        } else {
            0u8
        }),
{
    let v6: u8 = if probe.ipv6_inbound {
        Capabilities::IPV6_INBOUND
    } else {
        0
    };
    let relay: u8 = if probe.nat_type == NatType::Cone || probe.ipv6_inbound {
        Capabilities::RELAY_CAPABLE
    } else {
        0
    };
    assert(0u8 | v6 == v6) by (bit_vector);
    Capabilities::new().with(v6).with(relay)
}

/// Whether an invite is one to act on: its peer is the one with its key, it has a
/// Noise key, its signature holds, and it is not too old.
pub open spec fn trusted_invite(v: InviteView, now: u64) -> bool {
    &&& v.peer_id == primitives::sha256(v.ed25519_pk)
    &&& exists|i: int| 0 <= i < v.noise_pk.len() && #[trigger] v.noise_pk[i] != 0
    &&& primitives::ed25519_verifies(v.ed25519_pk, invite::invite_payload(v), v.signature)
    &&& !invite::expired(v.timestamp, now)
}

/// The invite to act on that a URI holds at some moment.
pub open spec fn accepted_invite(uri: Seq<char>, now: u64) -> Option<InviteView> {
    match invite::invite_of_uri(uri) {
        Ok(v) => if trusted_invite(v, now) {
            Some(v)
        } else {
            None
        },
        Err(_) => None,
    }
}

/// Reads an invite from a URI at some moment, and checks it.
pub fn parse_invite_at(uri: &str, now: u64) -> (r: Option<InviteCode>)
    ensures
        match r {
            Some(code) => accepted_invite(uri@, now) == Some(code@),
            None => accepted_invite(uri@, now) is None,
        },
{
    let code: InviteCode = match InviteCode::from_uri(uri) {
        Ok(c) => c,
        Err(_) => {
            return None;
        },
    };
    let expected: PeerId = PeerId::from_pubkey(&code.ed25519_pk);
    proof {
        peer::lemma_peer_id_ext(expected, code.peer_id);
    }
    if expected != code.peer_id || all_zero(code.noise_pk.as_slice()) {
        return None;
    }
    let payload: Vec<u8> = code.encode_payload();
    if !ed25519_verify(&code.ed25519_pk, payload.as_slice(), &code.signature) {
        return None;
    }
    if code.is_expired_at(now) {
        return None;
    }
    Some(code)
}

/// Reads an invite from a URI and checks it now. What the clock says decides whether
/// it is too old.
pub fn parse_invite(uri: &str) -> (r: Option<InviteCode>)
    ensures
        match r {
            Some(code) => exists|now: u64| #[trigger]
                clock::is_time(now) && accepted_invite(uri@, now) == Some(code@),
            None => exists|now: u64| #[trigger]
                clock::is_time(now) && accepted_invite(uri@, now) is None,
        },
{
    let now: u64 = unix_seconds();
    let r: Option<InviteCode> = parse_invite_at(uri, now);
    assert(accepted_invite(uri@, now) is Some <==> r is Some);
    r
}

/// An invite whose parts are in order is taken, as it went out, by whoever reads its URI
/// within half an hour.
pub proof fn law_valid_invite_accepted(v: InviteView, now: u64)
    requires
        invite::invite_fits(v),
        v.peer_id == primitives::sha256(v.ed25519_pk),
        exists|i: int| 0 <= i < v.noise_pk.len() && #[trigger] v.noise_pk[i] != 0,
        primitives::ed25519_verifies(v.ed25519_pk, invite::invite_payload(v), v.signature),
        v.timestamp <= now <= v.timestamp + 1800,
    ensures
        accepted_invite("lain://"@ + invite::invite_text(v), now) == Some(invite::as_sent(v)),
{
    invite::law_invite_uri_roundtrip(v);
    invite::law_invite_as_sent(v);
}

/// No invite is taken whose peer does not go with its key, whose Noise key is zero,
/// whose signature does not hold, or that was made more than half an hour ago or
/// in the future.
pub proof fn law_invalid_invite_refused(uri: Seq<char>, v: InviteView, now: u64)
    requires
        invite::invite_of_uri(uri) == Ok::<InviteView, Seq<char>>(v),
        v.peer_id != primitives::sha256(v.ed25519_pk) || (forall|i: int|
            0 <= i < v.noise_pk.len() ==> #[trigger] v.noise_pk[i] == 0)
            || !primitives::ed25519_verifies(
            v.ed25519_pk,
            invite::invite_payload(v),
            v.signature,
        ) || now < v.timestamp || now > v.timestamp + 1800,
    ensures
        accepted_invite(uri, now) is None,
{
}

/// Whether a message asks the daemon to relay.
pub open spec fn asks_to_relay(data: Seq<u8>) -> bool {
    match frame::frame_header(data) {
        Some((_, t, _, _)) => t == FrameType::RelayConnect,
        None => false,
    }
}

/// Whether a message asks the daemon to relay.
pub fn is_relay_request(data: &[u8]) -> (r: bool)
    ensures
        r == asks_to_relay(data@),
{
    match decode_frame_header(data) {
        Some((_, t, _, _)) => t == FrameType::RelayConnect,
        None => false,
    }
}

/// Who asks to be relayed, and to whom: the first and the second 32 bytes of the
/// payload.
pub open spec fn relay_parties(data: Seq<u8>) -> Option<(Seq<u8>, Seq<u8>)> {
    match frame::frame_header(data) {
        Some((_, t, len, at)) => if t == FrameType::RelayConnect && len >= 64 && at + len
            <= data.len() {
            Some(
                (
                    data.subrange(at as int, (at + 32) as int),
                    data.subrange((at + 32) as int, (at + 64) as int),
                ),
            )
        } else {
            None
        },
        None => None,
    }
}

/// Reads a request to relay: who asks, and for whom.
pub fn parse_relay_request(data: &[u8]) -> (r: Option<(PeerId, PeerId)>)
    ensures
        match r {
            Some((from, to)) => relay_parties(data@) == Some((from@, to@)),
            None => relay_parties(data@) is None,
        },
{
    match decode_frame_header(data) {
        Some((_, t, len, at)) => {
            if t != FrameType::RelayConnect || len < 64 {
                return None;
            }
            if at > data.len() || ((data.len() - at) as u64) < len {
                return None;
            }
            let from: [u8; 32] = array_at(data, at);
            let to: [u8; 32] = array_at(data, at + 32);
            Some((PeerId(from), PeerId(to)))
        },
        None => None,
    }
}

/// The message that asks a node to relay.
pub open spec fn relay_request_bytes(from: Seq<u8>, to: Seq<u8>) -> Seq<u8> {
    frame::frame_bytes(1, FrameType::RelayConnect, from + to)
}

/// The message that asks a node to relay.
pub fn relay_request(from: &PeerId, to: &PeerId) -> (r: Vec<u8>)
    ensures
        r@ == relay_request_bytes(from@, to@),
{
    let mut payload: Vec<u8> = Vec::new();
    push_bytes(&mut payload, from.0.as_slice());
    push_bytes(&mut payload, to.0.as_slice());
    assert(payload@ =~= from@ + to@);
    encode_frame(1, FrameType::RelayConnect, payload.as_slice())
}

/// A node that gets a request to relay finds out who asks and for whom.
pub proof fn law_relay_request_roundtrip(from: PeerId, to: PeerId)
    ensures
        asks_to_relay(relay_request_bytes(from@, to@)),
        relay_parties(relay_request_bytes(from@, to@)) == Some((from@, to@)),
{
    let f = relay_request_bytes(from@, to@);
    let payload = from@ + to@;
    frame::law_frame_roundtrip(1, FrameType::RelayConnect, payload, Seq::empty());
    assert(f + Seq::<u8>::empty() =~= f);
    let n = (f.len() - payload.len()) as int;
    assert(f.subrange(n, n + 64) =~= payload);
    assert(f.subrange(n, n + 32) =~= from@) by {
        assert(f.subrange(n, n + 32) =~= payload.subrange(0, 32));
    }
    assert(f.subrange(n + 32, n + 64) =~= to@) by {
        assert(f.subrange(n + 32, n + 64) =~= payload.subrange(32, 64));
    }
}

/// The daemon makes known where it can be reached: at its IPv6 address and at the address
/// that the outside sees, each with the port of the transport, as far as it has them; and
/// at the ports from 50000 to 50007 of the latter for simultaneous connections. Whoever
/// gets these endpoints tries just these addresses over QUIC, and just these ports at the
/// same time.
pub proof fn law_own_endpoints(
    ipv6: Option<[u8; 16]>,
    mapped: Option<SocketAddr>,
    port: u16,
    eps: Seq<Endpoint>,
)
    requires
        endpoint::endpoint_views(eps) == endpoints_of(ipv6, mapped, port),
    ensures
        ({
            let quic = transport::quic_addresses(eps);
            let tso = session::tso_addrs(eps);
            &&& quic.len() == (if ipv6 is Some {
                1int
            } else {
                0
            }) + (if mapped is Some {
                1int
            } else {
                0
            })
            &&& ipv6 matches Some(ip) ==> quic[0]@ == (AddrView::V6 {
                octets: ip@,
                port,
                flowinfo: 0,
                scope_id: 0,
            })
            &&& mapped matches Some(a) ==> {
                &&& quic.last()@ == a@.ip_at(port)
                &&& tso.len() == 8
                &&& forall|i: int|
                    0 <= i < 8 ==> (#[trigger] tso[i])@ == a@.ip_at((50000 + i) as u16)
            }
            &&& mapped is None ==> tso.len() == 0
            &&& forall|i: int| 0 <= i < eps.len() ==> (#[trigger] eps[i]).ttl_seconds == 300
        }),
{
    let v = endpoints_of(ipv6, mapped, port);
    let first: int = if ipv6 is Some {
        1
    } else {
        0
    };
    assert(eps.len() == v.len());
    assert forall|i: int| 0 <= i < eps.len() implies #[trigger] eps[i]@ == v[i] by {
        assert(endpoint::endpoint_views(eps)[i] == eps[i]@);
    }
    assert forall|i: int| 0 <= i < eps.len() implies (#[trigger] eps[i]).ttl_seconds == 300 by {
        assert(eps[i]@ == v[i]);
        assert(v[i].ttl_seconds == 300);
    }
    let head = eps.subrange(0, first);
    let tail = eps.skip(first);
    assert(eps =~= head + tail);
    transport::law_quic_targets(head, tail);
    session::law_tso_addresses(head, tail);
    if ipv6 is Some {
        let e = eps[0];
        assert(eps[0]@ == v[0]);
        assert(head =~= seq![e]);
        lemma_single(e);
    } else {
        assert(head =~= Seq::empty());
        assert(transport::quic_addresses(head) =~= Seq::empty());
        assert(session::tso_addrs(head) =~= Seq::empty());
    }
    if mapped is Some {
        let e = tail[0];
        let rest = tail.skip(1);
        assert(tail[0]@ == v[first]);
        assert(tail =~= seq![e] + rest);
        transport::law_quic_targets(seq![e], rest);
        session::law_tso_addresses(seq![e], rest);
        lemma_single(e);
        assert forall|i: int| 0 <= i < rest.len() implies (#[trigger] rest[i]).kind
            == EndpointKind::TSO by {
            assert(eps[first + 1 + i]@ == v[first + 1 + i]);
        }
        lemma_all_tso(rest);
        let tso = session::tso_addrs(eps);
        assert(tso =~= session::tso_addrs(rest));
        assert forall|i: int| 0 <= i < 8 implies (#[trigger] tso[i])@ == mapped->0@.ip_at(
            (50000 + i) as u16,
        ) by {
            assert(tso[i] == rest[i].addr);
            assert(eps[first + 1 + i]@ == v[first + 1 + i]);
        }
    } else {
        assert(tail =~= Seq::empty());
        assert(transport::quic_addresses(tail) =~= Seq::empty());
        assert(session::tso_addrs(tail) =~= Seq::empty());
    }
}

proof fn lemma_single(e: Endpoint)
    ensures
        transport::quic_addresses(seq![e]) == if e.kind == EndpointKind::IPv6 || e.kind
            == EndpointKind::STUN {
            seq![e.addr]
        } else {
            Seq::empty()
        },
        session::tso_addrs(seq![e]) == if e.kind == EndpointKind::TSO {
            seq![e.addr]
        } else {
            Seq::empty()
        },
{
    let s = seq![e];
    assert(s.drop_last() =~= Seq::empty());
    assert(transport::quic_addresses(s.drop_last()) =~= Seq::empty());
    assert(session::tso_addrs(s.drop_last()) =~= Seq::empty());
    assert(Seq::<SocketAddr>::empty().push(e.addr) =~= seq![e.addr]);
}

proof fn lemma_all_tso(eps: Seq<Endpoint>)
    requires
        forall|i: int| 0 <= i < eps.len() ==> (#[trigger] eps[i]).kind == EndpointKind::TSO,
    ensures
        transport::quic_addresses(eps).len() == 0,
        session::tso_addrs(eps) == eps.map_values(|e: Endpoint| e.addr),
    decreases eps.len(),
{
    if eps.len() > 0 {
        let front = eps.drop_last();
        assert forall|i: int| 0 <= i < front.len() implies (#[trigger] front[i]).kind
            == EndpointKind::TSO by {
            assert(front[i] == eps[i]);
        }
        lemma_all_tso(front);
        assert(eps[eps.len() - 1] == eps.last());
        assert(session::tso_addrs(eps) =~= eps.map_values(|e: Endpoint| e.addr));
    } else {
        assert(session::tso_addrs(eps) =~= eps.map_values(|e: Endpoint| e.addr));
    }
}

/// The daemon offers to relay exactly where it is behind a cone NAT or has inbound IPv6,
/// and tells that it has inbound IPv6 exactly where it has; it offers nothing else.
pub proof fn law_own_capabilities(probe: NatProbeResult, bits: u8)
    requires
        bits == (if probe.ipv6_inbound {
            Capabilities::IPV6_INBOUND
        } else {
            0u8
        }) | (if can_relay(probe) {
            Capabilities::RELAY_CAPABLE
        } else {
            0u8
        }),
    ensures
        bits & 0x01 != 0 <==> probe.nat_type == NatType::Cone || probe.ipv6_inbound,
        bits & 0x04 != 0 <==> probe.ipv6_inbound,
        bits & 0xFA == 0,
{
    assert((4u8 | 1u8) & 0x01 != 0 && (4u8 | 1u8) & 0x04 != 0 && (4u8 | 1u8) & 0xFA == 0)
        by (bit_vector);
    assert((0u8 | 1u8) & 0x01 != 0 && (0u8 | 1u8) & 0x04 == 0 && (0u8 | 1u8) & 0xFA == 0)
        by (bit_vector);
    assert((0u8 | 0u8) & 0x01 == 0 && (0u8 | 0u8) & 0x04 == 0 && (0u8 | 0u8) & 0xFA == 0)
        by (bit_vector);
}

} // verus!
