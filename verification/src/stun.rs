//! What lies between a peer and the network: STUN messages and what is concluded
//! from their answers.
use crate::bytes;
use crate::bytes::{array_at, bytes_equal, push_bytes, read_u16};
use crate::endpoint::{AddrView, SocketAddr};
use crate::primitives::random_16;
use vstd::prelude::*;

verus! {

/// How a NAT maps addresses.
#[derive(Clone, Copy, Debug, PartialEq, Eq, Structural)]
pub enum NatType {
    Unknown,
    Cone,
    ADFSymmetric,
    APDFSymmetric,
}

impl NatType {
    /// Whether the mapping depends on the destination.
    pub fn is_symmetric(self) -> (r: bool)
        ensures
            r == (self == NatType::ADFSymmetric || self == NatType::APDFSymmetric),
    {
        match self {
            NatType::ADFSymmetric => true,
            NatType::APDFSymmetric => true,
            _ => false,
        }
    }

    /// Whether the mapping depends on the destination's port too.
    pub fn is_apdf(self) -> (r: bool)
        ensures
            r == (self == NatType::APDFSymmetric),
    {
        match self {
            NatType::APDFSymmetric => true,
            _ => false,
        }
    }

    /// The number that stands for the type.
    pub fn code(self) -> (r: u8)
        ensures
            r == match self {
                NatType::Unknown => 0u8,
                NatType::Cone => 1u8,
                NatType::ADFSymmetric => 2u8,
                NatType::APDFSymmetric => 3u8,
            },
    {
        match self {
            NatType::Unknown => 0,
            NatType::Cone => 1,
            NatType::ADFSymmetric => 2,
            NatType::APDFSymmetric => 3,
        }
    }
}

/// What was found out about the network.
#[derive(Clone, Copy, Debug)]
pub struct NatProbeResult {
    pub nat_type: NatType,
    /// Whether there is IPv6 at all.
    pub ipv6_inbound: bool,
    /// An IPv6 address that can be reached from everywhere.
    pub ipv6_addr: Option<[u8; 16]>,
    pub mapped_addr: Option<SocketAddr>,
    pub port_delta: Option<u16>,
    pub stun_rtt_ms: Option<u64>,
}

/// One answer of a STUN server: the address that it saw, and how long it took in
/// milliseconds.
#[derive(Clone, Copy, Debug)]
pub struct ProbeAttempt {
    pub mapped: SocketAddr,
    pub rtt_ms: u64,
}

/// The servers to ask, and how long to wait for each.
#[derive(Debug)]
pub struct NatProbe {
    servers: Vec<SocketAddr>,
    timeout_secs: u64,
}

/// After how many answers no more are waited for.
pub const ENOUGH_ANSWERS: usize = 2;

impl NatProbe {
    /// The servers to ask.
    pub closed spec fn server_list(&self) -> Seq<SocketAddr> {
        self.servers@
    }

    /// How long to wait for a server, in seconds.
    pub closed spec fn wait_secs(&self) -> u64 {
        self.timeout_secs
    }

    /// A probe of some servers. The wait is a second at least.
    pub fn new(servers: Vec<SocketAddr>, timeout_secs: u64) -> (r: Self)
        ensures
            r.server_list() == servers@,
            r.wait_secs() == if timeout_secs < 1 {
                1
            } else {
                timeout_secs
            },
    {
        let timeout_secs: u64 = if timeout_secs < 1 {
            1
        } else {
            timeout_secs
        };
        NatProbe { servers, timeout_secs }
    }

    /// The servers to ask.
    pub fn servers(&self) -> (r: &Vec<SocketAddr>)
        ensures
            r@ == self.server_list(),
    {
        &self.servers
    }

    /// How long to wait for a server, in seconds.
    pub fn timeout_secs(&self) -> (r: u64)
        ensures
            r == self.wait_secs(),
    {
        self.timeout_secs
    }

    /// Whether no more answers are waited for.
    pub fn has_enough(answers: usize) -> (r: bool)
        ensures
            r == (answers >= 2),
    {
        answers >= ENOUGH_ANSWERS
    }

    /// What the answers say, with what is known of IPv6.
    pub fn conclude(
        results: &[ProbeAttempt],
        ipv6_inbound: bool,
        ipv6_addr: Option<[u8; 16]>,
    ) -> (r: NatProbeResult)
        ensures
            r.ipv6_inbound == ipv6_inbound,
            r.ipv6_addr == ipv6_addr,
            r.nat_type == nat_type_of(mapped_views(results@)),
            r.nat_type == NatType::Unknown <==> results@.len() == 0,
            r.nat_type == NatType::APDFSymmetric <==> exists|i: int, j: int|
                0 <= i < results@.len() && 0 <= j < results@.len() && ip_octets(
                    (#[trigger] results@[i]).mapped@,
                ) != ip_octets((#[trigger] results@[j]).mapped@),
            r.nat_type == NatType::Cone ==> forall|i: int, j: int|
                0 <= i < results@.len() && 0 <= j < results@.len() ==> ip_octets(
                    (#[trigger] results@[i]).mapped@,
                ) == ip_octets((#[trigger] results@[j]).mapped@) && results@[i].mapped@.port()
                    == results@[j].mapped@.port(),
            results@.len() == 0 ==> r.mapped_addr is None && r.port_delta is None && r.stun_rtt_ms
                is None,
            results@.len() > 0 ==> {
                &&& r.mapped_addr == Some(results@[0].mapped)
                &&& r.port_delta == common_step(port_steps(ports_of(results@)))
                &&& r.stun_rtt_ms is Some
                &&& r.stun_rtt_ms->0 == total_rtt(results@) / results@.len()
            },
    {
        proof {
            law_nat_type(results@, nat_type_of(mapped_views(results@)));
        }
        if results.len() == 0 {
            return NatProbeResult {
                nat_type: NatType::Unknown,
                ipv6_inbound,
                ipv6_addr,
                mapped_addr: None,
                port_delta: None,
                stun_rtt_ms: None,
            };
        }
        let base: SocketAddr = results[0].mapped;
        let mut all_same: bool = true;
        let mut ip_same: bool = true;
        let mut total: u128 = 0;
        let ghost views = mapped_views(results@);
        let mut i: usize = 0;
        while i < results.len()
            invariant
                i <= results@.len(),
                results@.len() > 0,
                base == results@[0].mapped,
                views == mapped_views(results@),
                all_same == (forall|j: int| 0 <= j < i ==> #[trigger] views[j] == views[0]),
                ip_same == (forall|j: int| 0 <= j < i ==> same_ip(#[trigger] views[j], views[0])),
                total == total_rtt(results@.subrange(0, i as int)),
                total <= i * 0xffff_ffff_ffff_ffff,
            decreases results@.len() - i,
        {
            let a: ProbeAttempt = results[i];
            proof {
                crate::endpoint::lemma_addr_ext(a.mapped, base);
                assert(views[i as int] == a.mapped@);
                assert(views[0] == base@);
                assert(results@.subrange(0, i + 1).drop_last() =~= results@.subrange(0, i as int));
                assert((i + 1) * 0xffff_ffff_ffff_ffff <= 0xffff_ffff_ffff_ffff
                    * 0x1_0000_0000_0000_0000);
            }
            if !(a.mapped == base) {
                all_same = false;
            }
            if !a.mapped.same_ip(&base) {
                ip_same = false;
            }
            total = total + a.rtt_ms as u128;
            i = i + 1;
        }
        assert(results@.subrange(0, i as int) =~= results@);
        let len: usize = results.len();
        let avg: u128 = total / (len as u128);
        proof {
            let n = len as int;
            assert(total as int / n <= 0xffff_ffff_ffff_ffff) by (nonlinear_arith)
                requires
                    total <= n * 0xffff_ffff_ffff_ffff,
                    n > 0,
            ;
        }
        let nat_type: NatType = if all_same {
            NatType::Cone
        } else if ip_same {
            NatType::ADFSymmetric
        } else {
            NatType::APDFSymmetric
        };
        NatProbeResult {
            nat_type,
            ipv6_inbound,
            ipv6_addr,
            mapped_addr: Some(base),
            port_delta: step_of(results),
            stun_rtt_ms: Some(avg as u64),
        }
    }
}

/// The addresses that the servers saw, as values.
pub open spec fn mapped_views(results: Seq<ProbeAttempt>) -> Seq<AddrView> {
    results.map_values(|a: ProbeAttempt| a.mapped@)
}

/// The ports that the servers saw.
pub open spec fn ports_of(results: Seq<ProbeAttempt>) -> Seq<u16> {
    results.map_values(|a: ProbeAttempt| a.mapped@.port())
}

/// The sum of the times that the answers took.
pub open spec fn total_rtt(results: Seq<ProbeAttempt>) -> nat
    decreases results.len(),
{
    if results.len() == 0 {
        0
    } else {
        total_rtt(results.drop_last()) + results.last().rtt_ms as nat
    }
}

/// Whether two addresses have the same IP address.
pub open spec fn same_ip(a: AddrView, b: AddrView) -> bool {
    match (a, b) {
        (AddrView::V4 { octets: x, port: p }, AddrView::V4 { octets: y, port: q }) => x == y,
        (
            AddrView::V6 { octets: x, port: p, flowinfo: f, scope_id: s },
            AddrView::V6 { octets: y, port: q, flowinfo: g, scope_id: t },
        ) => x == y,
        _ => false,
    }
}

/// The type of NAT that the addresses speak for: none where nobody answered; a
/// cone where all saw the same address; and otherwise a symmetric one, of the
/// milder kind where all saw the same IP address.
pub open spec fn nat_type_of(mapped: Seq<AddrView>) -> NatType {
    if mapped.len() == 0 {
        NatType::Unknown
    } else if forall|i: int| 0 <= i < mapped.len() ==> #[trigger] mapped[i] == mapped[0] {
        NatType::Cone
    } else if forall|i: int| 0 <= i < mapped.len() ==> same_ip(#[trigger] mapped[i], mapped[0]) {
        NatType::ADFSymmetric
    } else {
        NatType::APDFSymmetric
    }
}

/// The difference of two ports.
pub open spec fn port_gap(a: u16, b: u16) -> u16 {
    if a < b {
        (b - a) as u16
    } else {
        (a - b) as u16
    }
}

/// The differences of successive ports, without those that are zero.
pub open spec fn port_steps(ports: Seq<u16>) -> Seq<u16>
    decreases ports.len(),
{
    if ports.len() < 2 {
        Seq::empty()
    } else {
        let rest = port_steps(ports.drop_last());
        let gap = port_gap(ports[ports.len() - 2], ports.last());
        if gap > 0 {
            rest.push(gap)
        } else {
            rest
        }
    }
}

/// The step that all of some steps are equal to, if there is any.
pub open spec fn common_step(steps: Seq<u16>) -> Option<u16> {
    if steps.len() > 0 && forall|i: int| 0 <= i < steps.len() ==> #[trigger] steps[i] == steps[0] {
        Some(steps[0])
    } else {
        None
    }
}

/// The step by which the ports that the servers saw differ, where it is the same
/// all along.
fn step_of(results: &[ProbeAttempt]) -> (r: Option<u16>)
    requires
        results@.len() > 0,
    ensures
        r == common_step(port_steps(ports_of(results@))),
{
    let ghost ports = ports_of(results@);
    let mut steps: Vec<u16> = Vec::new();
    let mut i: usize = 1;
    while i < results.len()
        invariant
            1 <= i <= results@.len(),
            ports == ports_of(results@),
            steps@ == port_steps(ports.subrange(0, i as int)),
        decreases results@.len() - i,
    {
        let a: u16 = results[i - 1].mapped.port();
        let b: u16 = results[i].mapped.port();
        let gap: u16 = if a < b {
            b - a
        } else {
            a - b
        };
        proof {
            let next = ports.subrange(0, i + 1);
            assert(next.drop_last() =~= ports.subrange(0, i as int));
            assert(next[next.len() - 2] == ports[i - 1]);
            assert(next.last() == ports[i as int]);
        }
        if gap > 0 {
            steps.push(gap);
        }
        i = i + 1;
    }
    assert(ports.subrange(0, i as int) =~= ports);
    if steps.len() == 0 {
        return None;
    }
    let mut j: usize = 0;
    while j < steps.len()
        invariant
            j <= steps@.len(),
            steps@.len() > 0,
            steps@ == port_steps(ports),
            ports == ports_of(results@),
            forall|k: int| 0 <= k < j ==> #[trigger] steps@[k] == steps@[0],
        decreases steps@.len() - j,
    {
        if steps[j] != steps[0] {
            return None;
        }
        j = j + 1;
    }
    Some(steps[0])
}

/// Whether an IPv6 address can be reached from everywhere: it starts with the
/// bits 001.
pub open spec fn is_global_unicast(octets: Seq<u8>) -> bool {
    octets[0] / 32 == 1
}

/// The first of some IPv6 addresses that can be reached from everywhere.
pub fn pick_global_ipv6(addrs: &[[u8; 16]]) -> (r: Option<[u8; 16]>)
    ensures
        r matches Some(a) ==> 0x20 <= a@[0] <= 0x3f,
        r is None ==> forall|j: int|
            0 <= j < addrs@.len() ==> !(0x20 <= (#[trigger] addrs@[j])@[0] <= 0x3f),
        match r {
            Some(a) => exists|i: int|
                {
                    &&& 0 <= i < addrs@.len()
                    &&& #[trigger] addrs@[i] == a
                    &&& is_global_unicast(a@)
                    &&& forall|j: int| 0 <= j < i ==> !is_global_unicast((#[trigger] addrs@[j])@)
                },
            None => forall|j: int|
                0 <= j < addrs@.len() ==> !is_global_unicast((#[trigger] addrs@[j])@),
        },
{
    let mut i: usize = 0;
    while i < addrs.len()
        invariant
            i <= addrs@.len(),
            forall|j: int| 0 <= j < i ==> !is_global_unicast((#[trigger] addrs@[j])@),
        decreases addrs@.len() - i,
    {
        let a: [u8; 16] = addrs[i];
        if a[0] / 32 == 1 {
            assert(addrs@[i as int] == a);
            return Some(a);
        }
        i = i + 1;
    }
    None
}

/// The four bytes that every STUN message holds.
pub open spec fn stun_cookie() -> Seq<u8> {
    seq![0x21u8, 0x12u8, 0xA4u8, 0x42u8]
}

/// A STUN Binding request: its type, no attributes, the cookie and a transaction
/// id.
pub open spec fn binding_request(tid: Seq<u8>) -> Seq<u8> {
    seq![0u8, 1u8, 0u8, 0u8] + stun_cookie() + tid
}

/// A STUN Binding request with a given transaction id.
pub fn binding_request_for(tid: &[u8; 12]) -> (p: Vec<u8>)
    ensures
        p@ == binding_request(tid@),
{
    let mut p: Vec<u8> = Vec::new();
    p.push(0);
    p.push(1);
    p.push(0);
    p.push(0);
    p.push(0x21);
    p.push(0x12);
    p.push(0xA4);
    p.push(0x42);
    assert(p@ =~= seq![0u8, 1u8, 0u8, 0u8] + stun_cookie());
    push_bytes(&mut p, tid.as_slice());
    p
}

/// A STUN Binding request with a random transaction id.
pub fn build_binding_request() -> (r: (Vec<u8>, [u8; 12]))
    ensures
        r.0@ == binding_request(r.1@),
{
    let random: [u8; 16] = random_16();
    let tid: [u8; 12] = array_at(random.as_slice(), 0);
    (binding_request_for(&tid), tid)
}

/// Whether an attribute type is that of a mapped address, plain or masked.
pub open spec fn is_mapped_attribute(ty: nat) -> bool {
    ty == 0x0001 || ty == 0x0020
}

/// The next multiple of four.
pub open spec fn aligned(off: int) -> int {
    (off + 3) / 4 * 4
}

/// The offset behind the value of an attribute: what its length says, but no more
/// than there is.
pub open spec fn value_end(data: Seq<u8>, off: int) -> int {
    let want = off + 4 + bytes::be_nat(data.subrange(off + 2, off + 4));
    if want < data.len() {
        want
    } else {
        data.len() as int
    }
}

/// The address in the value at offset `at`, unmasked where it is masked with the
/// cookie.
pub open spec fn mapped_value(data: Seq<u8>, at: int, masked: bool) -> AddrView {
    let raw = bytes::be_nat(data.subrange(at + 2, at + 4)) as u16;
    AddrView::V4 {
        octets: Seq::new(
            4,
            |i: int|
                if masked {
                    data[at + 4 + i] ^ stun_cookie()[i]
                } else {
                    data[at + 4 + i]
                },
        ),
        port: if masked {
            raw ^ 0x2112u16
        } else {
            raw
        },
    }
}

/// The first mapped IPv4 address among the attributes from offset `off` on, up to
/// `end`. A mapped address that is cut off ends the search without one.
pub open spec fn mapped_at(data: Seq<u8>, off: int, end: int) -> Option<AddrView>
    decreases data.len() + 4 - off,
{
    if off < 0 || off + 4 > end || end > data.len() {
        None
    } else {
        let ty = bytes::be_nat(data.subrange(off, off + 2));
        let stop = value_end(data, off);
        let at = off + 4;
        if is_mapped_attribute(ty) && stop < at + 4 {
            None
        } else if is_mapped_attribute(ty) && data[at + 1] == 1 {
            if stop < at + 8 {
                None
            } else {
                Some(mapped_value(data, at, ty == 0x0020))
            }
        } else {
            mapped_at(data, aligned(stop), end)
        }
    }
}

/// The mapped address that a STUN Binding response to a transaction holds.
pub open spec fn parsed_mapped(data: Seq<u8>, tid: Seq<u8>) -> Option<AddrView> {
    if data.len() < 20 || data[0] != 1 || data[1] != 1 || data.subrange(4, 8) != stun_cookie()
        || data.subrange(8, 20) != tid {
        None
    } else {
        let want = 20 + bytes::be_nat(data.subrange(2, 4)) as int;
        mapped_at(
            data,
            20,
            if want < data.len() {
                want
            } else {
                data.len() as int
            },
        )
    }
}

/// The next multiple of four, if it can be told.
fn align4(n: usize) -> (r: Option<usize>)
    ensures
        match r {
            Some(m) => m == aligned(n as int) && n <= m <= n + 3,
            None => aligned(n as int) > usize::MAX,
        },
{
    let over: usize = n % 4;
    if over == 0 {
        Some(n)
    } else {
        n.checked_add(4 - over)
    }
}

/// Reads the address in the value at offset `at`.
fn read_mapped(data: &[u8], at: usize, masked: bool) -> (a: SocketAddr)
    requires
        at + 8 <= data@.len(),
    ensures
        a@ == mapped_value(data@, at as int, masked),
{
    let len: usize = data.len();
    assert(at + 8 <= len);
    let raw: u16 = read_u16(data, at + 2);
    let a: SocketAddr = if masked {
        SocketAddr::v4(
            data[at + 4] ^ 0x21,
            data[at + 5] ^ 0x12,
            data[at + 6] ^ 0xA4,
            data[at + 7] ^ 0x42,
            raw ^ 0x2112,
        )
    } else {
        SocketAddr::v4(data[at + 4], data[at + 5], data[at + 6], data[at + 7], raw)
    };
    assert(a@->V4_octets =~= mapped_value(data@, at as int, masked)->V4_octets);
    a
}

/// Reads the mapped address from a STUN Binding response.
pub fn parse_mapped(data: &[u8], expected_tid: &[u8; 12]) -> (r: Option<SocketAddr>)
    ensures
        match r {
            Some(a) => parsed_mapped(data@, expected_tid@) == Some(a@),
            None => parsed_mapped(data@, expected_tid@) is None,
        },
{
    if data.len() < 20 {
        return None;
    }
    if data[0] != 1 || data[1] != 1 {
        return None;
    }
    let cookie: [u8; 4] = [0x21, 0x12, 0xA4, 0x42];
    assert(cookie@ =~= stun_cookie());
    if !bytes_equal(&data[4..8], cookie.as_slice()) {
        return None;
    }
    if !bytes_equal(&data[8..20], expected_tid.as_slice()) {
        return None;
    }
    let len: usize = data.len();
    let msg_len: usize = read_u16(data, 2) as usize;
    let end: usize = if 20 + msg_len < len {
        20 + msg_len
    } else {
        len
    };
    let mut off: usize = 20;
    while off <= end && end - off >= 4
        invariant
            len == data@.len(),
            end <= len,
            off >= 20,
            parsed_mapped(data@, expected_tid@) == mapped_at(data@, off as int, end as int),
        decreases len + 4 - off,
    {
        let ty: u16 = read_u16(data, off);
        let attr_len: usize = read_u16(data, off + 2) as usize;
        let at: usize = off + 4;
        let stop: usize = if attr_len < len - at {
            at + attr_len
        } else {
            len
        };
        if ty == 0x0001 || ty == 0x0020 {
            if stop < at || stop - at < 4 {
                return None;
            }
            if data[at + 1] == 1 {
                if stop - at < 8 {
                    return None;
                }
                return Some(read_mapped(data, at, ty == 0x0020));
            }
        }
        assert(stop == value_end(data@, off as int));
        match align4(stop) {
            None => {
                assert(mapped_at(data@, aligned(stop as int), end as int) is None);
                assert(mapped_at(data@, off as int, end as int) == mapped_at(
                    data@,
                    aligned(stop as int),
                    end as int,
                ));
                return None;
            },
            Some(next) => {
                assert(mapped_at(data@, off as int, end as int) == mapped_at(
                    data@,
                    next as int,
                    end as int,
                ));
                off = next;
            },
        }
    }
    None
}

/// A STUN Binding response with one mapped IPv4 address.
pub open spec fn binding_response(tid: Seq<u8>, octets: Seq<u8>, port: u16, masked: bool) -> Seq<
    u8,
> {
    seq![1u8, 1u8, 0u8, 12u8] + stun_cookie() + tid + seq![
        0u8,
        if masked {
            0x20u8
        } else {
            1u8
        },
        0u8,
        8u8,
        0u8,
        1u8,
    ] + bytes::be_bytes(
        (if masked {
            port ^ 0x2112u16
        } else {
            port
        }) as nat,
        2,
    ) + Seq::new(
        4,
        |i: int|
            if masked {
                octets[i] ^ stun_cookie()[i]
            } else {
                octets[i]
            },
    )
}

/// The address in a STUN Binding response is read as it is, masked or not, by the
/// one who made the request.
pub proof fn law_mapped_address_read(tid: Seq<u8>, octets: Seq<u8>, port: u16, masked: bool)
    requires
        tid.len() == 12,
        octets.len() == 4,
    ensures
        parsed_mapped(binding_response(tid, octets, port, masked), tid) == Some(
            AddrView::V4 { octets, port },
        ),
{
    let s = binding_response(tid, octets, port, masked);
    let raw = if masked {
        port ^ 0x2112u16
    } else {
        port
    };
    bytes::lemma_pow256();
    bytes::lemma_be_nat_of_bytes(raw as nat, 2);
    assert(s.len() == 32);
    assert(s.subrange(4, 8) =~= stun_cookie());
    assert(s.subrange(8, 20) =~= tid);
    bytes::lemma_be_nat_small(s.subrange(2, 4));
    bytes::lemma_be_nat_small(s.subrange(20, 22));
    bytes::lemma_be_nat_small(s.subrange(22, 24));
    assert(s.subrange(26, 28) =~= bytes::be_bytes(raw as nat, 2));
    assert(raw ^ 0x2112u16 ^ 0x2112u16 == raw) by (bit_vector);
    assert((port ^ 0x2112u16) ^ 0x2112u16 == port) by (bit_vector);
    let got = mapped_value(s, 24, masked);
    assert forall|i: int| 0 <= i < 4 implies #[trigger] got->V4_octets[i] == octets[i] by {
        let x = octets[i];
        let c = stun_cookie()[i];
        assert((x ^ c) ^ c == x) by (bit_vector);
    }
    assert(got->V4_octets =~= octets);
    assert(mapped_at(s, 20, 32) == Some(got));
}

/// A response to another transaction is not read.
pub proof fn law_other_transaction_ignored(data: Seq<u8>, tid: Seq<u8>)
    requires
        data.len() >= 20,
        data.subrange(8, 20) != tid,
    ensures
        parsed_mapped(data, tid) is None,
{
}

/// The octets of an IP address: four or sixteen.
pub open spec fn ip_octets(a: AddrView) -> Seq<u8> {
    match a {
        AddrView::V4 { octets, port } => octets,
        AddrView::V6 { octets, port, flowinfo, scope_id } => octets,
    }
}

/// The type of NAT that is concluded is symmetric of the stricter kind exactly where two
/// answers have different IP addresses, and a cone only where all have the same IP
/// address and the same port. Where all have the same IP address, and bear neither flow
/// label nor scope, it is symmetric of the milder kind exactly where two ports differ,
/// and a cone exactly where none do. Without an answer it is unknown.
pub proof fn law_nat_type(answers: Seq<ProbeAttempt>, nat_type: NatType)
    requires
        nat_type == nat_type_of(mapped_views(answers)),
    ensures
        nat_type == NatType::Unknown <==> answers.len() == 0,
        nat_type == NatType::APDFSymmetric <==> exists|i: int, j: int|
            0 <= i < answers.len() && 0 <= j < answers.len() && ip_octets(
                (#[trigger] answers[i]).mapped@,
            ) != ip_octets((#[trigger] answers[j]).mapped@),
        nat_type == NatType::Cone ==> forall|i: int, j: int|
            0 <= i < answers.len() && 0 <= j < answers.len() ==> ip_octets(
                (#[trigger] answers[i]).mapped@,
            ) == ip_octets((#[trigger] answers[j]).mapped@) && answers[i].mapped@.port()
                == answers[j].mapped@.port(),
        (forall|i: int| 0 <= i < answers.len() ==> (#[trigger] answers[i]).mapped@.on_wire()) ==> (
        nat_type == NatType::ADFSymmetric <==> (forall|i: int, j: int|
            0 <= i < answers.len() && 0 <= j < answers.len() ==> ip_octets(
                (#[trigger] answers[i]).mapped@,
            ) == ip_octets((#[trigger] answers[j]).mapped@)) && exists|i: int, j: int|
            0 <= i < answers.len() && 0 <= j < answers.len() && (
            #[trigger] answers[i]).mapped@.port() != (#[trigger] answers[j]).mapped@.port()),
{
    let v = mapped_views(answers);
    assert forall|i: int, j: int| 0 <= i < answers.len() && 0 <= j < answers.len() implies same_ip(
        #[trigger] v[i],
        #[trigger] v[j],
    ) == (ip_octets(answers[i].mapped@) == ip_octets(answers[j].mapped@)) by {
        lemma_octets(answers[i].mapped);
        lemma_octets(answers[j].mapped);
    }
    if answers.len() > 0 {
        if forall|i: int| 0 <= i < v.len() ==> same_ip(#[trigger] v[i], v[0]) {
            assert forall|i: int, j: int| 0 <= i < answers.len() && 0 <= j
                < answers.len() implies ip_octets((#[trigger] answers[i]).mapped@) == ip_octets(
                (#[trigger] answers[j]).mapped@,
            ) by {
                assert(same_ip(v[i], v[0]));
                assert(same_ip(v[j], v[0]));
            }
            if forall|i: int| 0 <= i < v.len() ==> #[trigger] v[i] == v[0] {
                assert forall|i: int| 0 <= i < answers.len() implies (
                #[trigger] answers[i]).mapped@ == answers[0].mapped@ by {
                    assert(v[i] == v[0]);
                }
            } else {
                let i = choose|i: int| 0 <= i < v.len() && #[trigger] v[i] != v[0];
                assert(answers[i].mapped@ != answers[0].mapped@);
                assert(ip_octets(answers[i].mapped@) == ip_octets(answers[0].mapped@));
                if forall|n: int|
                    0 <= n < answers.len() ==> (#[trigger] answers[n]).mapped@.on_wire() {
                    assert(answers[i].mapped@.on_wire() && answers[0].mapped@.on_wire());
                    assert(answers[i].mapped@.port() != answers[0].mapped@.port());
                }
            }
        } else {
            let i = choose|i: int| 0 <= i < v.len() && !same_ip(#[trigger] v[i], v[0]);
            assert(ip_octets(answers[i].mapped@) != ip_octets(answers[0].mapped@));
            if forall|n: int| 0 <= n < v.len() ==> #[trigger] v[n] == v[0] {
                assert(v[i] == v[0]);
            }
        }
    }
}

proof fn lemma_octets(a: SocketAddr)
    ensures
        ip_octets(a@).len() == match a {
            SocketAddr::V4(_) => 4int,
            SocketAddr::V6(_) => 16int,
        },
{
    match a {
        SocketAddr::V4(x) => {
            assert(x.ip@.len() == 4);
        },
        SocketAddr::V6(x) => {
            assert(x.ip@.len() == 16);
        },
    }
}

/// The step of the NAT is known exactly where some ports of successive answers differ,
/// and all that do differ by as much, up or down: by that.
pub proof fn law_port_step(answers: Seq<ProbeAttempt>, step: Option<u16>, d: int)
    requires
        step == common_step(port_steps(ports_of(answers))),
        d > 0,
    ensures
        step is Some && step->0 == d <==> (exists|i: int|
            0 < i < answers.len() && #[trigger] differ_by(answers, i, d)) && forall|i: int|
            0 < i < answers.len() ==> #[trigger] differ_by(answers, i, 0) || differ_by(
                answers,
                i,
                d,
            ),
        step is Some ==> step->0 > 0,
{
    let steps = port_steps(ports_of(answers));
    lemma_port_steps(answers);
    if step is Some && step->0 == d {
        assert(steps[0] == d);
        let i = choose|i: int|
            0 < i < answers.len() && #[trigger] differ_by(answers, i, steps[0] as int);
        assert(differ_by(answers, i, d));
        assert forall|i: int| 0 < i < answers.len() implies #[trigger] differ_by(answers, i, 0)
            || differ_by(answers, i, d) by {
            if !differ_by(answers, i, 0) {
                let n = choose|n: int|
                    0 <= n < steps.len() && differ_by(answers, i, #[trigger] steps[n] as int);
                assert(steps[n] == steps[0]);
            }
        }
    }
    if step is Some {
        assert(steps[0] > 0);
    }
    if (exists|i: int| 0 < i < answers.len() && #[trigger] differ_by(answers, i, d)) && forall|
        i: int,
    |
        0 < i < answers.len() ==> #[trigger] differ_by(answers, i, 0) || differ_by(answers, i, d) {
        let i = choose|i: int| 0 < i < answers.len() && #[trigger] differ_by(answers, i, d);
        assert(!differ_by(answers, i, 0));
        let n = choose|n: int|
            0 <= n < steps.len() && differ_by(answers, i, #[trigger] steps[n] as int);
        assert forall|k: int| 0 <= k < steps.len() implies #[trigger] steps[k] == d by {
            let m = choose|m: int|
                0 < m < answers.len() && #[trigger] differ_by(answers, m, steps[k] as int);
            assert(differ_by(answers, m, 0) || differ_by(answers, m, d));
        }
        assert(steps[0] == d);
    }
}

/// Whether the ports of an answer and of the one before differ by so much.
pub open spec fn differ_by(answers: Seq<ProbeAttempt>, i: int, d: int) -> bool {
    let a = answers[i - 1].mapped@.port() as int;
    let b = answers[i].mapped@.port() as int;
    a - b == d || b - a == d
}

/// The steps are the differences of successive ports that are not zero.
proof fn lemma_port_steps(answers: Seq<ProbeAttempt>)
    ensures
        ({
            let steps = port_steps(ports_of(answers));
            &&& forall|n: int|
                #![trigger steps[n]]
                0 <= n < steps.len() ==> steps[n] > 0 && exists|i: int|
                    0 < i < answers.len() && #[trigger] differ_by(answers, i, steps[n] as int)
            &&& forall|i: int|
                0 < i < answers.len() && !(#[trigger] differ_by(answers, i, 0)) ==> exists|n: int|
                    0 <= n < steps.len() && differ_by(answers, i, #[trigger] steps[n] as int)
        }),
    decreases answers.len(),
{
    let steps = port_steps(ports_of(answers));
    if answers.len() >= 2 {
        let front = answers.drop_last();
        let rest = port_steps(ports_of(front));
        lemma_port_steps(front);
        assert(ports_of(answers).drop_last() =~= ports_of(front));
        let last = answers.len() - 1;
        assert forall|n: int| #![trigger steps[n]] 0 <= n < steps.len() implies steps[n] > 0
            && exists|i: int|
            0 < i < answers.len() && #[trigger] differ_by(answers, i, steps[n] as int) by {
            if n < rest.len() {
                assert(steps[n] == rest[n]);
                let i = choose|i: int|
                    0 < i < front.len() && #[trigger] differ_by(front, i, rest[n] as int);
                assert(differ_by(answers, i, steps[n] as int));
            } else {
                assert(differ_by(answers, last, steps[n] as int));
            }
        }
        assert forall|i: int|
            0 < i < answers.len() && !(#[trigger] differ_by(answers, i, 0)) implies exists|n: int|
            0 <= n < steps.len() && differ_by(answers, i, #[trigger] steps[n] as int) by {
            if i < last {
                assert(!differ_by(front, i, 0));
                let n = choose|n: int|
                    0 <= n < rest.len() && differ_by(front, i, #[trigger] rest[n] as int);
                assert(steps[n] == rest[n]);
            } else {
                assert(differ_by(answers, i, steps[steps.len() - 1] as int));
            }
        }
    }
}

/// The round-trip time that is concluded lies between any lower and any upper bound of
/// those of the answers, and so is theirs where they are all the same; and together the
/// answers take as long as so many round trips, up to one millisecond each.
pub proof fn law_round_trip(answers: Seq<ProbeAttempt>, low: nat, high: nat)
    requires
        answers.len() > 0,
        forall|i: int| 0 <= i < answers.len() ==> low <= (#[trigger] answers[i]).rtt_ms <= high,
    ensures
        low <= total_rtt(answers) / answers.len() <= high,
        low * answers.len() <= total_rtt(answers) <= high * answers.len(),
        answers.len() == 2 ==> total_rtt(answers) == answers[0].rtt_ms + answers[1].rtt_ms,
{
    lemma_total_bounds(answers, low, high);
    let n = answers.len() as int;
    let t = total_rtt(answers) as int;
    assert(low <= t / n <= high) by (nonlinear_arith)
        requires
            low * n <= t <= high * n,
            n > 0,
    ;
    if answers.len() == 2 {
        reveal_with_fuel(total_rtt, 3);
        assert(answers.drop_last().last() == answers[0]);
    }
}

proof fn lemma_total_bounds(answers: Seq<ProbeAttempt>, low: nat, high: nat)
    requires
        forall|i: int| 0 <= i < answers.len() ==> low <= (#[trigger] answers[i]).rtt_ms <= high,
    ensures
        low * answers.len() <= total_rtt(answers) <= high * answers.len(),
    decreases answers.len(),
{
    if answers.len() > 0 {
        let front = answers.drop_last();
        assert forall|i: int| 0 <= i < front.len() implies low <= (
        #[trigger] front[i]).rtt_ms <= high by {
            assert(front[i] == answers[i]);
        }
        lemma_total_bounds(front, low, high);
        let n = answers.len() as int;
        assert(low * n == low * (n - 1) + low) by (nonlinear_arith);
        assert(high * n == high * (n - 1) + high) by (nonlinear_arith);
        assert(answers[n - 1] == answers.last());
    } else {
        assert(low * 0 == 0 && high * 0 == 0);
    }
}

/// An attribute of another kind before the mapped address does not matter: reading goes
/// on behind its value, at the next multiple of four.
pub proof fn law_other_attribute_skipped(data: Seq<u8>, off: int, end: int)
    requires
        0 <= off,
        off + 4 <= end <= data.len(),
        off % 4 == 0,
        bytes::be_nat(data.subrange(off, off + 2)) != 0x0001,
        bytes::be_nat(data.subrange(off, off + 2)) != 0x0020,
        off + 4 + bytes::be_nat(data.subrange(off + 2, off + 4)) <= data.len(),
    ensures
        ({
            let len = bytes::be_nat(data.subrange(off + 2, off + 4)) as int;
            let gap = (4 - len % 4) % 4;
            mapped_at(data, off, end) == mapped_at(data, off + 4 + len + gap, end)
        }),
{
}

/// A Binding request says that it is one, has no attributes, and bears the number
/// 0x2112A442 and the transaction id.
pub proof fn law_binding_request(tid: Seq<u8>)
    requires
        tid.len() == 12,
    ensures
        ({
            let p = binding_request(tid);
            &&& p.len() == 20
            &&& bytes::be_nat(p.subrange(0, 2)) == 1
            &&& bytes::be_nat(p.subrange(2, 4)) == 0
            &&& bytes::be_nat(p.subrange(4, 8)) == 0x2112_A442
            &&& p.subrange(8, 20) == tid
        }),
{
    let p = binding_request(tid);
    bytes::lemma_be_nat_small(p.subrange(0, 2));
    bytes::lemma_be_nat_small(p.subrange(2, 4));
    bytes::lemma_be_nat_small(p.subrange(4, 8));
    assert(p.subrange(8, 20) =~= tid);
}

/// The IPv6 addresses that can be reached from everywhere are those of 2000::/3.
pub proof fn law_global_unicast(octets: Seq<u8>)
    requires
        octets.len() == 16,
    ensures
        is_global_unicast(octets) <==> 0x20 <= octets[0] <= 0x3f,
{
}

} // verus!
