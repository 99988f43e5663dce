//! Addresses, and the ways in which a peer can be reached at them.
use crate::bytes;
use crate::bytes::{array_at, bytes_equal, push_bytes, push_u16, read_u16};
use vstd::prelude::*;

verus! {

/// An IPv4 address with a port.
#[derive(Clone, Copy, Debug, Hash, Eq)]
pub struct SocketAddrV4 {
    pub ip: [u8; 4],
    pub port: u16,
}

/// An IPv6 address with a port.
#[derive(Clone, Copy, Debug, Hash, Eq)]
pub struct SocketAddrV6 {
    pub ip: [u8; 16],
    pub port: u16,
    pub flowinfo: u32,
    pub scope_id: u32,
}

/// An IP address with a port.
#[derive(Clone, Copy, Debug, Hash, Eq)]
pub enum SocketAddr {
    V4(SocketAddrV4),
    V6(SocketAddrV6),
}

/// An address as a value: the octets of the IP address, and the numbers.
pub enum AddrView {
    V4 { octets: Seq<u8>, port: u16 },
    V6 { octets: Seq<u8>, port: u16, flowinfo: u32, scope_id: u32 },
}

impl View for SocketAddr {
    type V = AddrView;

    open spec fn view(&self) -> AddrView {
        match *self {
            SocketAddr::V4(a) => AddrView::V4 { octets: a.ip@, port: a.port },
            SocketAddr::V6(a) => AddrView::V6 {
                octets: a.ip@,
                port: a.port,
                flowinfo: a.flowinfo,
                scope_id: a.scope_id,
            },
        }
    }
}

impl AddrView {
    /// The port.
    pub open spec fn port(self) -> u16 {
        match self {
            AddrView::V4 { octets, port } => port,
            AddrView::V6 { octets, port, flowinfo, scope_id } => port,
        }
    }

    /// The IP address with a port, without flow label and scope.
    pub open spec fn ip_at(self, port: u16) -> AddrView {
        match self {
            AddrView::V4 { octets, port: p } => AddrView::V4 { octets, port },
            AddrView::V6 { octets, port: p, flowinfo, scope_id } => AddrView::V6 {
                octets,
                port,
                flowinfo: 0,
                scope_id: 0,
            },
        }
    }

    /// Whether the octets are those of an address, and the wire formats keep all
    /// of it: they have no room for an IPv6 flow label or scope.
    pub open spec fn on_wire(self) -> bool {
        match self {
            AddrView::V4 { octets, port } => octets.len() == 4,
            AddrView::V6 { octets, port, flowinfo, scope_id } => octets.len() == 16 && flowinfo == 0
                && scope_id == 0,
        }
    }
}

/// Addresses with the same view are the same.
pub proof fn lemma_addr_ext(a: SocketAddr, b: SocketAddr)
    ensures
        a@ == b@ <==> a == b,
{
    match (a, b) {
        (SocketAddr::V4(x), SocketAddr::V4(y)) => {
            if a@ == b@ {
                assert(x.ip =~= y.ip);
            }
        },
        (SocketAddr::V6(x), SocketAddr::V6(y)) => {
            if a@ == b@ {
                assert(x.ip =~= y.ip);
            }
        },
        _ => {},
    }
}

impl PartialEq for SocketAddrV4 {
    fn eq(&self, other: &Self) -> (r: bool) {
        proof {
            if self.ip@ == other.ip@ {
                assert(self.ip =~= other.ip);
            }
        }
        bytes_equal(self.ip.as_slice(), other.ip.as_slice()) && self.port == other.port
    }
}

impl vstd::std_specs::cmp::PartialEqSpecImpl for SocketAddrV4 {
    open spec fn obeys_eq_spec() -> bool {
        true
    }

    open spec fn eq_spec(&self, other: &Self) -> bool {
        *self == *other
    }
}

impl PartialEq for SocketAddrV6 {
    fn eq(&self, other: &Self) -> (r: bool) {
        proof {
            if self.ip@ == other.ip@ {
                assert(self.ip =~= other.ip);
            }
        }
        bytes_equal(self.ip.as_slice(), other.ip.as_slice()) && self.port == other.port
            && self.flowinfo == other.flowinfo && self.scope_id == other.scope_id
    }
}

impl vstd::std_specs::cmp::PartialEqSpecImpl for SocketAddrV6 {
    open spec fn obeys_eq_spec() -> bool {
        true
    }

    open spec fn eq_spec(&self, other: &Self) -> bool {
        *self == *other
    }
}

impl PartialEq for SocketAddr {
    fn eq(&self, other: &Self) -> (r: bool) {
        match (*self, *other) {
            (SocketAddr::V4(a), SocketAddr::V4(b)) => a == b,
            (SocketAddr::V6(a), SocketAddr::V6(b)) => a == b,
            _ => false,
        }
    }
}

impl vstd::std_specs::cmp::PartialEqSpecImpl for SocketAddr {
    open spec fn obeys_eq_spec() -> bool {
        true
    }

    open spec fn eq_spec(&self, other: &Self) -> bool {
        *self == *other
    }
}

impl SocketAddr {
    /// An IPv4 address.
    pub fn v4(a: u8, b: u8, c: u8, d: u8, port: u16) -> (r: SocketAddr)
        ensures
            r@ == (AddrView::V4 { octets: seq![a, b, c, d], port }),
    {
        let ip: [u8; 4] = [a, b, c, d];
        assert(ip@ =~= seq![a, b, c, d]);
        SocketAddr::V4(SocketAddrV4 { ip, port })
    }

    /// An IPv6 address without flow label and scope.
    pub fn v6(ip: [u8; 16], port: u16) -> (r: SocketAddr)
        ensures
            r@ == (AddrView::V6 { octets: ip@, port, flowinfo: 0, scope_id: 0 }),
    {
        SocketAddr::V6(SocketAddrV6 { ip, port, flowinfo: 0, scope_id: 0 })
    }

    /// The port.
    pub fn port(&self) -> (p: u16)
        ensures
            p == self@.port(),
    {
        match *self {
            SocketAddr::V4(a) => a.port,
            SocketAddr::V6(a) => a.port,
        }
    }

    /// The IP address with a port, without flow label and scope.
    pub fn ip_at(&self, port: u16) -> (r: SocketAddr)
        ensures
            r@ == self@.ip_at(port),
    {
        match *self {
            SocketAddr::V4(a) => SocketAddr::V4(SocketAddrV4 { ip: a.ip, port }),
            SocketAddr::V6(a) => SocketAddr::v6(a.ip, port),
        }
    }

    /// Whether two addresses have the same IP address, whatever their ports.
    pub fn same_ip(&self, other: &SocketAddr) -> (r: bool)
        ensures
            r == match (self@, other@) {
                (
                    AddrView::V4 { octets: a, port: p },
                    AddrView::V4 { octets: b, port: q },
                ) => a == b,
                (
                    AddrView::V6 { octets: a, port: p, flowinfo: f, scope_id: s },
                    AddrView::V6 { octets: b, port: q, flowinfo: g, scope_id: t },
                ) => a == b,
                _ => false,
            },
    {
        match (*self, *other) {
            (SocketAddr::V4(a), SocketAddr::V4(b)) => bytes_equal(a.ip.as_slice(), b.ip.as_slice()),
            (SocketAddr::V6(a), SocketAddr::V6(b)) => bytes_equal(a.ip.as_slice(), b.ip.as_slice()),
            _ => false,
        }
    }
}

/// How an endpoint came about, or how it is used.
#[derive(Clone, Copy, Debug, PartialEq, Eq, Structural, Hash)]
pub enum EndpointKind {
    IPv6,
    STUN,
    LAN,
    WebSocket,
    Relay,
    TSO,
}

impl EndpointKind {
    /// The number that stands for the kind on the wire.
    pub open spec fn spec_code(self) -> u8 {
        match self {
            EndpointKind::IPv6 => 0,
            EndpointKind::STUN => 1,
            EndpointKind::LAN => 2,
            EndpointKind::WebSocket => 3,
            EndpointKind::Relay => 4,
            EndpointKind::TSO => 5,
        }
    }

    /// The number that stands for the kind on the wire.
    pub fn code(self) -> (r: u8)
        ensures
            r == self.spec_code(),
            r <= 5,
    {
        match self {
            EndpointKind::IPv6 => 0,
            EndpointKind::STUN => 1,
            EndpointKind::LAN => 2,
            EndpointKind::WebSocket => 3,
            EndpointKind::Relay => 4,
            EndpointKind::TSO => 5,
        }
    }

    /// The kind that a number stands for.
    pub fn from_code(v: u8) -> (r: Option<EndpointKind>)
        ensures
            r == endpoint_kind_of(v),
    {
        if v == 0 {
            Some(EndpointKind::IPv6)
        } else if v == 1 {
            Some(EndpointKind::STUN)
        } else if v == 2 {
            Some(EndpointKind::LAN)
        } else if v == 3 {
            Some(EndpointKind::WebSocket)
        } else if v == 4 {
            Some(EndpointKind::Relay)
        } else if v == 5 {
            Some(EndpointKind::TSO)
        } else {
            None
        }
    }
}

/// The kind whose code is `v`, if there is one.
pub open spec fn endpoint_kind_of(v: u8) -> Option<EndpointKind> {
    if v == 0 {
        Some(EndpointKind::IPv6)
    } else if v == 1 {
        Some(EndpointKind::STUN)
    } else if v == 2 {
        Some(EndpointKind::LAN)
    } else if v == 3 {
        Some(EndpointKind::WebSocket)
    } else if v == 4 {
        Some(EndpointKind::Relay)
    } else if v == 5 {
        Some(EndpointKind::TSO)
    } else {
        None
    }
}

/// An address at which a peer can be reached, and for how many seconds this is
/// to be believed.
#[derive(Clone, Copy, Debug, Hash, Eq)]
pub struct Endpoint {
    pub addr: SocketAddr,
    pub kind: EndpointKind,
    pub ttl_seconds: u32,
}

/// An endpoint as a value.
pub struct EndpointView {
    pub addr: AddrView,
    pub kind: EndpointKind,
    pub ttl_seconds: u32,
}

impl View for Endpoint {
    type V = EndpointView;

    open spec fn view(&self) -> EndpointView {
        EndpointView { addr: self.addr@, kind: self.kind, ttl_seconds: self.ttl_seconds }
    }
}

/// The views of a list of endpoints.
pub open spec fn endpoint_views(s: Seq<Endpoint>) -> Seq<EndpointView> {
    s.map_values(|e: Endpoint| e@)
}

impl PartialEq for Endpoint {
    fn eq(&self, other: &Self) -> (r: bool) {
        self.addr == other.addr && self.kind == other.kind && self.ttl_seconds == other.ttl_seconds
    }
}

impl vstd::std_specs::cmp::PartialEqSpecImpl for Endpoint {
    open spec fn obeys_eq_spec() -> bool {
        true
    }

    open spec fn eq_spec(&self, other: &Self) -> bool {
        *self == *other
    }
}

impl Endpoint {
    /// An endpoint to be believed for five minutes.
    pub fn new(addr: SocketAddr, kind: EndpointKind) -> (r: Self)
        ensures
            r == (Endpoint { addr, kind, ttl_seconds: 300 }),
    {
        Endpoint { addr, kind, ttl_seconds: 300 }
    }
}

/// A list of endpoints, copied.
pub fn copy_endpoints(s: &[Endpoint]) -> (out: Vec<Endpoint>)
    ensures
        out@ == s@,
{
    let mut out: Vec<Endpoint> = Vec::with_capacity(s.len());
    let mut i: usize = 0;
    while i < s.len()
        invariant
            i <= s@.len(),
            out@ == s@.subrange(0, i as int),
        decreases s@.len() - i,
    {
        out.push(s[i]);
        i = i + 1;
    }
    assert(out@ =~= s@);
    out
}

/// The wire form of an address: 0 and four octets, or 1 and sixteen octets, and
/// the port in two bytes.
pub open spec fn address_bytes(a: AddrView) -> Seq<u8> {
    match a {
        AddrView::V4 { octets, port } => seq![0u8] + octets + bytes::be_bytes(port as nat, 2),
        AddrView::V6 { octets, port, flowinfo, scope_id } => seq![1u8] + octets + bytes::be_bytes(
            port as nat,
            2,
        ),
    }
}

/// The address whose wire form starts at offset `at`, and the offset behind it.
/// Nothing, where the data ends before it does or where the first byte is
/// neither 0 nor 1.
pub open spec fn address_at(data: Seq<u8>, at: int) -> Option<(AddrView, int)> {
    if at < 0 || at >= data.len() {
        None
    } else if data[at] == 0 {
        if at + 7 > data.len() {
            None
        } else {
            Some(
                (
                    AddrView::V4 {
                        octets: data.subrange(at + 1, at + 5),
                        port: bytes::be_nat(data.subrange(at + 5, at + 7)) as u16,
                    },
                    at + 7,
                ),
            )
        }
    } else if data[at] == 1 {
        if at + 19 > data.len() {
            None
        } else {
            Some(
                (
                    AddrView::V6 {
                        octets: data.subrange(at + 1, at + 17),
                        port: bytes::be_nat(data.subrange(at + 17, at + 19)) as u16,
                        flowinfo: 0,
                        scope_id: 0,
                    },
                    at + 19,
                ),
            )
        }
    } else {
        None
    }
}

/// Appends the wire form of an address.
pub fn encode_address(buf: &mut Vec<u8>, addr: &SocketAddr)
    ensures
        final(buf)@ == old(buf)@ + address_bytes(addr@),
{
    match *addr {
        SocketAddr::V4(a) => {
            buf.push(0);
            push_bytes(buf, a.ip.as_slice());
            push_u16(buf, a.port);
        },
        SocketAddr::V6(a) => {
            buf.push(1);
            push_bytes(buf, a.ip.as_slice());
            push_u16(buf, a.port);
        },
    }
    assert(buf@ =~= old(buf)@ + address_bytes(addr@));
}

/// Reads the address at offset `at`, and says where it ends.
pub fn decode_address(data: &[u8], at: usize) -> (r: Option<(SocketAddr, usize)>)
    ensures
        match r {
            Some((a, next)) => {
                &&& address_at(data@, at as int) == Some((a@, next as int))
                &&& at < next <= data@.len()
            },
            None => address_at(data@, at as int) is None,
        },
{
    if at >= data.len() {
        return None;
    }
    let room: usize = data.len() - at;
    if data[at] == 0 {
        if room < 7 {
            return None;
        }
        let ip: [u8; 4] = array_at(data, at + 1);
        let port: u16 = read_u16(data, at + 5);
        Some((SocketAddr::V4(SocketAddrV4 { ip, port }), at + 7))
    } else if data[at] == 1 {
        if room < 19 {
            return None;
        }
        let ip: [u8; 16] = array_at(data, at + 1);
        let port: u16 = read_u16(data, at + 17);
        Some((SocketAddr::V6(SocketAddrV6 { ip, port, flowinfo: 0, scope_id: 0 }), at + 19))
    } else {
        None
    }
}

/// Reading the wire form of an address gives the address and the offset behind
/// it, wherever the wire form stands.
pub proof fn law_address_roundtrip(pre: Seq<u8>, a: AddrView, rest: Seq<u8>)
    requires
        a.on_wire(),
    ensures
        address_at(pre + address_bytes(a) + rest, pre.len() as int) == Some(
            (a, pre.len() + address_bytes(a).len() as int),
        ),
        address_bytes(a).len() == 7 || address_bytes(a).len() == 19,
{
    let at = pre.len() as int;
    let s = pre + address_bytes(a) + rest;
    let p = a.port() as nat;
    bytes::lemma_pow256();
    bytes::lemma_be_nat_of_bytes(p, 2);
    match a {
        AddrView::V4 { octets, port } => {
            assert(s[at] == 0);
            assert(s.subrange(at + 1, at + 5) =~= octets);
            assert(s.subrange(at + 5, at + 7) =~= bytes::be_bytes(p, 2));
        },
        AddrView::V6 { octets, port, flowinfo, scope_id } => {
            assert(s[at] == 1);
            assert(s.subrange(at + 1, at + 17) =~= octets);
            assert(s.subrange(at + 17, at + 19) =~= bytes::be_bytes(p, 2));
        },
    }
}

/// The numbers of the kinds of endpoints: each kind has its own, and a number above 5
/// stands for none.
pub proof fn law_kinds(k: EndpointKind, v: u8)
    ensures
        k.spec_code() == match k {
            EndpointKind::IPv6 => 0int,
            EndpointKind::STUN => 1,
            EndpointKind::LAN => 2,
            EndpointKind::WebSocket => 3,
            EndpointKind::Relay => 4,
            EndpointKind::TSO => 5,
        },
        endpoint_kind_of(v) == Some(k) <==> v == k.spec_code(),
        endpoint_kind_of(v) is None <==> v > 5,
{
}

/// An address with another port has that port and the octets that it had.
pub proof fn law_ip_at(a: SocketAddr, port: u16, b: SocketAddr)
    requires
        b@ == a@.ip_at(port),
    ensures
        b@.port() == port,
        a matches SocketAddr::V4(x) ==> (b matches SocketAddr::V4(y) && y.ip@ == x.ip@ && y.port
            == port),
        a matches SocketAddr::V6(x) ==> (b matches SocketAddr::V6(y) && y.ip@ == x.ip@ && y.port
            == port && y.flowinfo == 0 && y.scope_id == 0),
        a matches SocketAddr::V4(x) ==> a@.port() == x.port,
        a matches SocketAddr::V6(x) ==> a@.port() == x.port,
{
}

} // verus!
