//! Simultaneous TCP connections through NATs: what is tried, and in what order.
use crate::endpoint::SocketAddr;
use crate::port_predict::PortPredictor;
use crate::transport;
use crate::transport::TransportError;
use vstd::prelude::*;

verus! {

/// For how long connections are tried, in milliseconds.
pub const TSO_DEADLINE_MS: u64 = 102000;

/// How long to wait between two attempts, in milliseconds.
pub const TSO_STAGGER_MS: u64 = 40;

/// How long to wait while every pair is being tried, in milliseconds.
pub const TSO_BUSY_MS: u64 = 80;

/// The round-trip time that is assumed where none is known, in milliseconds.
pub const TSO_DEFAULT_RTT_MS: u64 = 200;

/// How many ports are tried at random where no port can be predicted.
pub const TSO_RANDOM_PORTS: usize = 32;

/// How far the random ports reach beyond the range that the peer gave.
pub const TSO_RANGE_MARGIN: u16 = 128;

/// How many local ports are used: four where the NAT takes steps of one, and
/// eight otherwise.
pub fn local_port_count(port_delta: Option<u16>) -> (n: u16)
    ensures
        n == if port_delta == Some(1u16) {
            4u16
        } else {
            8u16
        },
{
    match port_delta {
        Some(d) => if d == 1 {
            4
        } else {
            8
        },
        None => 8,
    }
}

/// How long one attempt may take, in milliseconds: twenty round trips, but five
/// seconds at least and ten at most.
pub open spec fn attempt_timeout(rtt_ms: Option<u64>) -> int {
    let rtt: int = match rtt_ms {
        Some(r) => r as int,
        None => 200,
    };
    if rtt * 20 < 5000 {
        5000
    } else if rtt * 20 > 10000 {
        10000
    } else {
        rtt * 20
    }
}

/// How long one attempt may take, in milliseconds.
pub fn connect_timeout_ms(stun_rtt_ms: Option<u64>) -> (ms: u64)
    ensures
        ms == attempt_timeout(stun_rtt_ms),
{
    let rtt: u64 = match stun_rtt_ms {
        Some(r) => r,
        None => TSO_DEFAULT_RTT_MS,
    };
    if rtt < 250 {
        5000
    } else if rtt > 500 {
        10000
    } else {
        rtt * 20
    }
}

/// A list ordered by port, with an address put behind those whose port is not
/// greater than its own.
pub open spec fn insert_by_port(s: Seq<SocketAddr>, a: SocketAddr) -> Seq<SocketAddr>
    decreases s.len(),
{
    if s.len() == 0 || s.last()@.port() <= a@.port() {
        s.push(a)
    } else {
        insert_by_port(s.drop_last(), a).push(s.last())
    }
}

/// Addresses ordered by port; those with the same port stay in their order.
pub open spec fn sort_by_port(s: Seq<SocketAddr>) -> Seq<SocketAddr>
    decreases s.len(),
{
    if s.len() == 0 {
        s
    } else {
        insert_by_port(sort_by_port(s.drop_last()), s.last())
    }
}

/// A list without the elements that are equal to the one before them.
pub open spec fn dedup(s: Seq<SocketAddr>) -> Seq<SocketAddr>
    decreases s.len(),
{
    if s.len() < 2 {
        s
    } else if s.last() == s[s.len() - 2] {
        dedup(s.drop_last())
    } else {
        dedup(s.drop_last()).push(s.last())
    }
}

/// Whether a list is ordered by port.
pub open spec fn ordered_by_port(s: Seq<SocketAddr>) -> bool {
    forall|i: int, j: int|
        0 <= i < j < s.len() ==> (#[trigger] s[i])@.port() <= (#[trigger] s[j])@.port()
}

/// The ports of some addresses.
pub open spec fn addr_ports(s: Seq<SocketAddr>) -> Seq<u16> {
    s.map_values(|a: SocketAddr| a@.port())
}

/// Whether `r` is the addresses of some ports at the IP address of another.
pub open spec fn at_ports(a: SocketAddr, ports: Seq<u16>, r: Seq<SocketAddr>) -> bool {
    r.len() == ports.len() && forall|i: int|
        0 <= i < r.len() ==> (#[trigger] r[i])@ == a@.ip_at(ports[i])
}

/// The first port that is tried at random.
pub open spec fn range_start(mappable_start: u16) -> int {
    if mappable_start < 128 {
        0
    } else {
        mappable_start - 128
    }
}

/// The port behind the last that is tried at random.
pub open spec fn range_end(mappable_end: u16) -> int {
    if mappable_end + 128 > 65535 {
        65535
    } else {
        mappable_end + 128
    }
}

/// How many ports may be tried at random; one at least, where the end lies before the
/// start too.
pub open spec fn range_len(mappable_start: u16, mappable_end: u16) -> int {
    if range_end(mappable_end) - range_start(mappable_start) < 1 {
        1
    } else {
        range_end(mappable_end) - range_start(mappable_start)
    }
}

/// The ports that random numbers stand for.
pub open spec fn random_ports(mappable_start: u16, mappable_end: u16, random: Seq<u32>) -> Seq<
    u16,
> {
    random.map_values(
        |x: u32|
            (range_start(mappable_start) + x as int % range_len(
                mappable_start,
                mappable_end,
            )) as u16,
    )
}

/// The ports that are tried besides those of the endpoints: those that are
/// predicted, and, where the step of the NAT is not known, some at random.
pub open spec fn extra_ports(
    predicted: Seq<u16>,
    port_delta: Option<u16>,
    mappable_start: u16,
    mappable_end: u16,
    random: Seq<u32>,
) -> Seq<u16> {
    match port_delta {
        None => predicted + random_ports(mappable_start, mappable_end, random),
        Some(_) => predicted,
    }
}

/// Whether `r` is the list of addresses to try: the endpoints and, at the first
/// endpoint's IP address, the extra ports, ordered by port and without
/// repetition.
pub open spec fn is_target_list(
    endpoints: Seq<SocketAddr>,
    extra: Seq<u16>,
    r: Seq<SocketAddr>,
) -> bool {
    exists|addrs: Seq<SocketAddr>|
        {
            &&& #[trigger] at_ports(endpoints[0], extra, addrs)
            &&& r == dedup(sort_by_port(endpoints + addrs))
        }
}

proof fn lemma_insert_by_port(s: Seq<SocketAddr>, a: SocketAddr)
    requires
        ordered_by_port(s),
    ensures
        ordered_by_port(insert_by_port(s, a)),
        insert_by_port(s, a).len() == s.len() + 1,
        insert_by_port(s, a).to_multiset() == s.to_multiset().insert(a),
        forall|i: int|
            0 <= i < insert_by_port(s, a).len() ==> (#[trigger] insert_by_port(s, a)[i]) == a
                || s.contains(insert_by_port(s, a)[i]),
    decreases s.len(),
{
    broadcast use vstd::seq_lib::group_to_multiset_ensures;

    if s.len() == 0 || s.last()@.port() <= a@.port() {
        let t = s.push(a);
        assert forall|i: int, j: int| 0 <= i < j < t.len() implies (#[trigger] t[i])@.port() <= (
        #[trigger] t[j])@.port() by {
            if j < s.len() {
                assert(s[i]@.port() <= s[j]@.port());
            } else if i < s.len() - 1 {
                assert(s[i]@.port() <= s[s.len() - 1]@.port());
            }
        }
    } else {
        let front = s.drop_last();
        let u = insert_by_port(front, a);
        let t = u.push(s.last());
        assert forall|i: int, j: int| 0 <= i < j < front.len() implies (
        #[trigger] front[i])@.port() <= (#[trigger] front[j])@.port() by {
            assert(s[i]@.port() <= s[j]@.port());
        }
        lemma_insert_by_port(front, a);
        assert forall|i: int| 0 <= i < u.len() implies (#[trigger] u[i])@.port()
            <= s.last()@.port() by {
            if u[i] != a {
                assert(front.contains(u[i]));
                let k = choose|k: int| 0 <= k < front.len() && front[k] == u[i];
                assert(s[k]@.port() <= s[s.len() - 1]@.port());
            }
        }
        assert forall|i: int, j: int| 0 <= i < j < t.len() implies (#[trigger] t[i])@.port() <= (
        #[trigger] t[j])@.port() by {
            if j < u.len() {
                assert(u[i]@.port() <= u[j]@.port());
            }
        }
        assert forall|i: int| 0 <= i < t.len() implies (#[trigger] t[i]) == a || s.contains(
            t[i],
        ) by {
            if i < u.len() {
                if u[i] != a {
                    assert(front.contains(u[i]));
                    let k = choose|k: int| 0 <= k < front.len() && front[k] == u[i];
                    assert(s[k] == t[i]);
                }
            } else {
                assert(s[s.len() - 1] == t[i]);
            }
        }
        assert(front.push(s.last()) =~= s);
        assert(t.to_multiset() =~= s.to_multiset().insert(a));
    }
}

proof fn lemma_sort_by_port(s: Seq<SocketAddr>)
    ensures
        ordered_by_port(sort_by_port(s)),
        sort_by_port(s).to_multiset() == s.to_multiset(),
        sort_by_port(s).len() == s.len(),
    decreases s.len(),
{
    broadcast use vstd::seq_lib::group_to_multiset_ensures;

    if s.len() > 0 {
        let front = s.drop_last();
        lemma_sort_by_port(front);
        lemma_insert_by_port(sort_by_port(front), s.last());
        assert(front.push(s.last()) =~= s);
    }
}

/// Puts an address where it belongs in a list ordered by port.
fn insert_addr(s: &mut Vec<SocketAddr>, a: SocketAddr)
    ensures
        final(s)@ == insert_by_port(old(s)@, a),
{
    let mut i: usize = s.len();
    let ghost all = s@;
    let ghost mut tail = Seq::<SocketAddr>::empty();
    assert(all.subrange(0, i as int) =~= all);
    assert(insert_by_port(all, a) + tail =~= insert_by_port(all, a));
    while i > 0 && s[i - 1].port() > a.port()
        invariant
            i <= all.len(),
            s@ == all,
            tail == all.subrange(i as int, all.len() as int),
            insert_by_port(all.subrange(0, i as int), a) + tail == insert_by_port(all, a),
        decreases i,
    {
        proof {
            let head = all.subrange(0, i as int);
            assert(head.drop_last() =~= all.subrange(0, i - 1));
            assert(head.last() == all[i - 1]);
            let next = all.subrange(i - 1, all.len() as int);
            assert(insert_by_port(head.drop_last(), a) + next =~= insert_by_port(
                head.drop_last(),
                a,
            ).push(head.last()) + tail);
            tail = next;
        }
        i = i - 1;
    }
    proof {
        let head = all.subrange(0, i as int);
        if i > 0 {
            assert(head.last() == all[i - 1]);
        }
        assert(insert_by_port(head, a) == head.push(a));
        assert(all.insert(i as int, a) =~= head.push(a) + tail);
    }
    s.insert(i, a);
}

/// Orders addresses by port.
fn sort_addrs(v: &[SocketAddr]) -> (r: Vec<SocketAddr>)
    ensures
        r@ == sort_by_port(v@),
{
    let mut r: Vec<SocketAddr> = Vec::new();
    let mut i: usize = 0;
    assert(v@.subrange(0, 0) =~= Seq::empty());
    while i < v.len()
        invariant
            i <= v@.len(),
            r@ == sort_by_port(v@.subrange(0, i as int)),
        decreases v@.len() - i,
    {
        assert(v@.subrange(0, i + 1).drop_last() =~= v@.subrange(0, i as int));
        assert(v@.subrange(0, i + 1).last() == v@[i as int]);
        insert_addr(&mut r, v[i]);
        i = i + 1;
    }
    assert(v@.subrange(0, i as int) =~= v@);
    r
}

/// Drops the elements that are equal to the one before them.
fn dedup_addrs(v: &[SocketAddr]) -> (r: Vec<SocketAddr>)
    ensures
        r@ == dedup(v@),
{
    let mut r: Vec<SocketAddr> = Vec::new();
    let mut i: usize = 0;
    assert(v@.subrange(0, 0) =~= Seq::empty());
    while i < v.len()
        invariant
            i <= v@.len(),
            r@ == dedup(v@.subrange(0, i as int)),
        decreases v@.len() - i,
    {
        proof {
            let next = v@.subrange(0, i + 1);
            assert(next.drop_last() =~= v@.subrange(0, i as int));
            assert(next.last() == v@[i as int]);
            if i > 0 {
                assert(next[next.len() - 2] == v@[i - 1]);
            } else {
                assert(r@ =~= Seq::empty());
                assert(next =~= seq![v@[0]]);
            }
        }
        if i == 0 || v[i] != v[i - 1] {
            r.push(v[i]);
            assert(i == 0 ==> r@ =~= v@.subrange(0, 1));
        }
        i = i + 1;
    }
    assert(v@.subrange(0, i as int) =~= v@);
    r
}

/// The addresses to try. The random numbers decide which ports are tried where
/// the step of the NAT is not known. Without endpoints there is nothing to try.
pub fn remote_targets<P: PortPredictor>(
    predictor: &P,
    endpoints: &[SocketAddr],
    port_delta: Option<u16>,
    stun_rtt_ms: Option<u64>,
    mappable_start: u16,
    mappable_end: u16,
    random: &[u32],
) -> (r: Vec<SocketAddr>)
    ensures
        endpoints@.len() == 0 ==> r@.len() == 0,
        endpoints@.len() > 0 ==> exists|predicted: Seq<u16>|
            {
                &&& #[trigger] predictor.predicts(
                    addr_ports(endpoints@),
                    port_delta,
                    stun_rtt_ms,
                    predicted,
                )
                &&& is_target_list(
                    endpoints@,
                    extra_ports(predicted, port_delta, mappable_start, mappable_end, random@),
                    r@,
                )
            },
{
    if endpoints.len() == 0 {
        return Vec::new();
    }
    let mut bases: Vec<u16> = Vec::new();
    let mut all: Vec<SocketAddr> = Vec::new();
    let mut i: usize = 0;
    while i < endpoints.len()
        invariant
            i <= endpoints@.len(),
            bases@ == addr_ports(endpoints@).subrange(0, i as int),
            all@ == endpoints@.subrange(0, i as int),
        decreases endpoints@.len() - i,
    {
        bases.push(endpoints[i].port());
        all.push(endpoints[i]);
        i = i + 1;
        assert(bases@ =~= addr_ports(endpoints@).subrange(0, i as int));
        assert(all@ =~= endpoints@.subrange(0, i as int));
    }
    assert(bases@ =~= addr_ports(endpoints@));
    assert(all@ =~= endpoints@);
    let mut ports: Vec<u16> = predictor.predict(bases.as_slice(), port_delta, stun_rtt_ms);
    let ghost predicted = ports@;
    let first: SocketAddr = endpoints[0];
    match port_delta {
        Some(_) => {},
        None => {
            let mut picked: Vec<u16> = pick_ports(mappable_start, mappable_end, random);
            ports.append(&mut picked);
        },
    }
    assert(ports@ =~= extra_ports(
        predicted,
        port_delta,
        mappable_start,
        mappable_end,
        random@,
    ));
    let ghost mut extra = Seq::<SocketAddr>::empty();
    let mut k: usize = 0;
    assert(all@ =~= endpoints@ + extra);
    while k < ports.len()
        invariant
            k <= ports@.len(),
            all@ == endpoints@ + extra,
            at_ports(first, ports@.subrange(0, k as int), extra),
        decreases ports@.len() - k,
    {
        let a: SocketAddr = first.ip_at(ports[k]);
        all.push(a);
        proof {
            let next = extra.push(a);
            assert(all@ =~= endpoints@ + next);
            assert forall|j: int| 0 <= j < next.len() implies (
            #[trigger] next[j])@ == first@.ip_at(ports@.subrange(0, k + 1)[j]) by {
                if j < extra.len() {
                    assert(extra[j]@ == first@.ip_at(ports@.subrange(0, k as int)[j]));
                }
            }
            extra = next;
        }
        k = k + 1;
    }
    assert(ports@.subrange(0, k as int) =~= ports@);
    let sorted: Vec<SocketAddr> = sort_addrs(all.as_slice());
    let r: Vec<SocketAddr> = dedup_addrs(sorted.as_slice());
    assert(at_ports(endpoints@[0], ports@, extra));
    assert(predictor.predicts(addr_ports(endpoints@), port_delta, stun_rtt_ms, predicted));
    r
}

/// The ports that random numbers stand for.
fn pick_ports(mappable_start: u16, mappable_end: u16, random: &[u32]) -> (r: Vec<u16>)
    ensures
        r@ == random_ports(mappable_start, mappable_end, random@),
{
    let start: u16 = mappable_start.saturating_sub(TSO_RANGE_MARGIN);
    let end: u16 = mappable_end.saturating_add(TSO_RANGE_MARGIN);
    let len: u32 = if start < end {
        (end - start) as u32
    } else {
        1
    };
    let mut r: Vec<u16> = Vec::new();
    let mut i: usize = 0;
    while i < random.len()
        invariant
            i <= random@.len(),
            len > 0,
            len == range_len(mappable_start, mappable_end),
            start == range_start(mappable_start),
            end == range_end(mappable_end),
            len <= 65535,
            len == 1 || start + len <= 65535,
            r@ == random_ports(mappable_start, mappable_end, random@).subrange(0, i as int),
        decreases random@.len() - i,
    {
        let offset: u32 = random[i] % len;
        assert(offset == random@[i as int] as int % len as int);
        r.push((start as u32 + offset) as u16);
        i = i + 1;
        assert(r@ =~= random_ports(mappable_start, mappable_end, random@).subrange(0, i as int));
    }
    assert(r@ =~= random_ports(mappable_start, mappable_end, random@));
    r
}

/// A local and a remote address between which a connection is tried.
#[derive(Clone, Copy, Debug)]
pub struct TsoPair {
    pub local: SocketAddr,
    pub remote: SocketAddr,
}

/// How many of so many ports from `port_start` on there are: none lies beyond 65535.
pub open spec fn ports_there(port_start: u16, count: u16) -> int {
    if port_start + count <= 65536 {
        count as int
    } else {
        65536 - port_start
    }
}

/// Whether `pairs` are all pairs of a local port and a remote address: the local
/// address with so many ports from `port_start` on, as far as there are so many,
/// each with every target.
pub open spec fn is_pair_list(
    bind: SocketAddr,
    port_start: u16,
    count: u16,
    targets: Seq<SocketAddr>,
    pairs: Seq<TsoPair>,
) -> bool {
    &&& pairs.len() == ports_there(port_start, count) * targets.len()
    &&& forall|i: int, j: int|
        0 <= i < ports_there(port_start, count) && 0 <= j < targets.len() ==> {
            let p = #[trigger] pairs[i * targets.len() + j];
            &&& p.local@ == bind@.ip_at((port_start + i) as u16)
            &&& p.remote == targets[j]
        }
}

/// All pairs of a local port and a remote address. Ports beyond 65535 are left out.
pub fn connection_pairs(
    bind: &SocketAddr,
    port_start: u16,
    count: u16,
    targets: &[SocketAddr],
) -> (pairs: Vec<TsoPair>)
    ensures
        is_pair_list(*bind, port_start, count, targets@, pairs@),
{
    let mut pairs: Vec<TsoPair> = Vec::new();
    let after: u32 = 65536 - port_start as u32;
    let last: u32 = if (count as u32) < after {
        count as u32
    } else {
        after
    };
    let ghost m = targets@.len() as int;
    let mut i: u32 = 0;
    assert(0 * m == 0);
    while i < last
        invariant
            i <= last,
            last == ports_there(port_start, count),
            port_start + last <= 65536,
            m == targets@.len(),
            pairs@.len() == i * m,
            forall|a: int, b: int|
                0 <= a < i && 0 <= b < m ==> {
                    let p = #[trigger] pairs@[a * m + b];
                    &&& p.local@ == bind@.ip_at((port_start + a) as u16)
                    &&& p.remote == targets@[b]
                },
        decreases last - i,
    {
        let local: SocketAddr = bind.ip_at((port_start as u32 + i) as u16);
        let mut j: usize = 0;
        let ghost base = i * m;
        while j < targets.len()
            invariant
                j <= targets@.len(),
                m == targets@.len(),
                base == i * m,
                local@ == bind@.ip_at((port_start + i) as u16),
                pairs@.len() == base + j,
                forall|a: int, b: int|
                    0 <= a < i && 0 <= b < m ==> {
                        let p = #[trigger] pairs@[a * m + b];
                        &&& p.local@ == bind@.ip_at((port_start + a) as u16)
                        &&& p.remote == targets@[b]
                    },
                forall|b: int|
                    0 <= b < j ==> {
                        let p = #[trigger] pairs@[base + b];
                        p.local == local && p.remote == targets@[b]
                    },
            decreases targets@.len() - j,
        {
            let ghost before = pairs@;
            pairs.push(TsoPair { local, remote: targets[j] });
            proof {
                assert forall|a: int, b: int| 0 <= a < i && 0 <= b < m implies {
                    let p = #[trigger] pairs@[a * m + b];
                    &&& p.local@ == bind@.ip_at((port_start + a) as u16)
                    &&& p.remote == targets@[b]
                } by {
                    assert(a * m + b < i * m) by (nonlinear_arith)
                        requires
                            0 <= a < i,
                            0 <= b < m,
                    ;
                    assert(a * m + b >= 0) by (nonlinear_arith)
                        requires
                            0 <= a,
                            0 <= b,
                            0 <= m,
                    ;
                    assert(pairs@[a * m + b] == before[a * m + b]);
                }
                assert forall|b: int| 0 <= b < j + 1 implies {
                    let p = #[trigger] pairs@[base + b];
                    p.local == local && p.remote == targets@[b]
                } by {
                    if b < j {
                        assert(pairs@[base + b] == before[base + b]);
                    }
                }
            }
            j = j + 1;
        }
        proof {
            assert((i + 1) * m == i * m + m) by (nonlinear_arith);
            assert forall|a: int, b: int| 0 <= a < i + 1 && 0 <= b < m implies {
                let p = #[trigger] pairs@[a * m + b];
                &&& p.local@ == bind@.ip_at((port_start + a) as u16)
                &&& p.remote == targets@[b]
            } by {
                if a == i {
                    assert(pairs@[base + b].local == local);
                }
            }
        }
        i = i + 1;
    }
    pairs
}

/// What to do next in the search for a connection.
#[derive(Debug)]
pub enum SearchAction {
    /// A connection is there: stop.
    Connected,
    /// The time ran out: give up, with this error.
    TimedOut(TransportError),
    /// Every pair is being tried: wait so many milliseconds.
    Wait(u64),
    /// Try this pair, and wait so many milliseconds before the next.
    Try(TsoPair, u64),
}

/// The search for a connection: the pairs, and which of them are being tried.
#[derive(Debug)]
pub struct TsoSearch {
    pairs: Vec<TsoPair>,
    busy: Vec<bool>,
}

/// Whether two pairs stand for the same connection: the same local port and the
/// same remote address.
pub open spec fn same_connection(a: TsoPair, b: TsoPair) -> bool {
    a.local@.port() == b.local@.port() && a.remote == b.remote
}

impl TsoSearch {
    /// The pairs.
    pub closed spec fn all(&self) -> Seq<TsoPair> {
        self.pairs@
    }

    /// Which pairs are being tried.
    pub closed spec fn tried(&self) -> Seq<bool> {
        self.busy@
    }

    /// There is a mark for every pair, and pairs that stand for the same
    /// connection bear the same mark.
    pub closed spec fn wf(&self) -> bool {
        &&& self.busy@.len() == self.pairs@.len()
        &&& forall|i: int, j: int|
            0 <= i < self.pairs@.len() && 0 <= j < self.pairs@.len() && same_connection(
                #[trigger] self.pairs@[i],
                #[trigger] self.pairs@[j],
            ) ==> self.busy@[i] == self.busy@[j]
    }

    /// A search among pairs, of which none is being tried.
    pub fn new(pairs: Vec<TsoPair>) -> (r: Self)
        ensures
            r.wf(),
            r.all() == pairs@,
            r.tried() == Seq::new(pairs@.len(), |i: int| false),
    {
        let mut busy: Vec<bool> = Vec::new();
        let mut i: usize = 0;
        while i < pairs.len()
            invariant
                i <= pairs@.len(),
                busy@ == Seq::new(i as nat, |j: int| false),
            decreases pairs@.len() - i,
        {
            busy.push(false);
            i = i + 1;
            assert(busy@ =~= Seq::new(i as nat, |j: int| false));
        }
        TsoSearch { pairs, busy }
    }

    /// What to do next, after some time and with or without a connection. The
    /// random number decides which of the pairs that are not being tried is next.
    pub fn next(&mut self, elapsed_ms: u64, connected: bool, random: usize) -> (r: SearchAction)
        requires
            old(self).wf(),
        ensures
            final(self).wf(),
            final(self).all() == old(self).all(),
            match r {
                SearchAction::Connected => connected && final(self).tried() == old(self).tried(),
                SearchAction::TimedOut(e) => {
                    &&& !connected && elapsed_ms >= TSO_DEADLINE_MS
                    &&& transport::is_connect_error(e, "TSO timeout"@)
                    &&& final(self).tried() == old(self).tried()
                },
                SearchAction::Wait(ms) => {
                    &&& elapsed_ms < TSO_DEADLINE_MS && !connected
                    &&& free_offsets(old(self).tried()).len() == 0
                    &&& ms == TSO_BUSY_MS
                    &&& final(self).tried() == old(self).tried()
                },
                SearchAction::Try(pair, ms) => {
                    let free = free_offsets(old(self).tried());
                    &&& elapsed_ms < TSO_DEADLINE_MS && !connected
                    &&& free.len() > 0
                    &&& pair == old(self).all()[free[random as int % free.len() as int]]
                    &&& ms == TSO_STAGGER_MS
                    &&& final(self).tried() == marked(
                        old(self).all(),
                        old(self).tried(),
                        pair,
                        true,
                    )
                },
            },
    {
        if connected {
            return SearchAction::Connected;
        }
        if elapsed_ms >= TSO_DEADLINE_MS {
            return SearchAction::TimedOut(TransportError::Connect("TSO timeout".to_string()));
        }
        let mut free: Vec<usize> = Vec::new();
        let mut i: usize = 0;
        assert(self.busy@.subrange(0, 0) =~= Seq::empty());
        while i < self.busy.len()
            invariant
                i <= self.busy@.len(),
                free@.map_values(|x: usize| x as int) == free_offsets(
                    self.busy@.subrange(0, i as int),
                ),
                forall|j: int| 0 <= j < free@.len() ==> #[trigger] free@[j] < i,
            decreases self.busy@.len() - i,
        {
            proof {
                let next = self.busy@.subrange(0, i + 1);
                assert(next.drop_last() =~= self.busy@.subrange(0, i as int));
                assert(next.last() == self.busy@[i as int]);
            }
            let ghost before = free@;
            if !self.busy[i] {
                free.push(i);
                assert(free@.map_values(|x: usize| x as int) =~= before.map_values(
                    |x: usize| x as int,
                ).push(i as int));
            }
            i = i + 1;
        }
        assert(self.busy@.subrange(0, i as int) =~= self.busy@);
        let ghost offsets = free_offsets(self.busy@);
        assert(offsets.len() == free@.len());
        if free.len() == 0 {
            return SearchAction::Wait(TSO_BUSY_MS);
        }
        let k: usize = random % free.len();
        let index: usize = free[k];
        assert(offsets[k as int] == index);
        let pair: TsoPair = self.pairs[index];
        self.mark(&pair, true);
        SearchAction::Try(pair, TSO_STAGGER_MS)
    }

    /// Takes note that a pair is no longer being tried.
    pub fn finished(&mut self, pair: &TsoPair)
        requires
            old(self).wf(),
        ensures
            final(self).wf(),
            final(self).all() == old(self).all(),
            final(self).tried() == marked(old(self).all(), old(self).tried(), *pair, false),
    {
        self.mark(pair, false);
    }

    /// Marks the pairs that stand for the same connection as one.
    fn mark(&mut self, pair: &TsoPair, value: bool)
        requires
            old(self).wf(),
        ensures
            final(self).wf(),
            final(self).all() == old(self).all(),
            final(self).tried() == marked(old(self).all(), old(self).tried(), *pair, value),
    {
        let ghost pairs = self.pairs@;
        let ghost before = self.busy@;
        let mut i: usize = 0;
        while i < self.pairs.len()
            invariant
                i <= pairs.len(),
                self.pairs@ == pairs,
                before.len() == pairs.len(),
                self.busy@.len() == pairs.len(),
                forall|j: int|
                    0 <= j < i ==> #[trigger] self.busy@[j] == marked(
                        pairs,
                        before,
                        *pair,
                        value,
                    )[j],
                forall|j: int| i <= j < pairs.len() ==> #[trigger] self.busy@[j] == before[j],
            decreases pairs.len() - i,
        {
            let p: TsoPair = self.pairs[i];
            if p.local.port() == pair.local.port() && p.remote == pair.remote {
                self.busy[i] = value;
            }
            i = i + 1;
        }
        assert(self.busy@ =~= marked(pairs, before, *pair, value));
    }
}

/// The offsets of the pairs that are not being tried.
pub open spec fn free_offsets(busy: Seq<bool>) -> Seq<int>
    decreases busy.len(),
{
    if busy.len() == 0 {
        Seq::empty()
    } else if busy.last() {
        free_offsets(busy.drop_last())
    } else {
        free_offsets(busy.drop_last()).push(busy.len() - 1)
    }
}

/// The marks after those of one connection were set.
pub open spec fn marked(pairs: Seq<TsoPair>, busy: Seq<bool>, pair: TsoPair, value: bool) -> Seq<
    bool,
> {
    Seq::new(
        busy.len(),
        |i: int|
            if same_connection(pairs[i], pair) {
                value
            } else {
                busy[i]
            },
    )
}

/// The offsets of the pairs that are not being tried are those without a mark.
proof fn lemma_free_offsets(busy: Seq<bool>)
    ensures
        forall|k: int|
            0 <= k < free_offsets(busy).len() ==> 0 <= (#[trigger] free_offsets(busy)[k])
                < busy.len() && !busy[free_offsets(busy)[k]],
    decreases busy.len(),
{
    if busy.len() > 0 {
        let front = busy.drop_last();
        lemma_free_offsets(front);
        let all = free_offsets(busy);
        assert forall|k: int| 0 <= k < all.len() implies 0 <= (#[trigger] all[k]) < busy.len()
            && !busy[all[k]] by {
            if k < free_offsets(front).len() {
                assert(all[k] == free_offsets(front)[k]);
                assert(!front[free_offsets(front)[k]]);
            }
        }
    }
}

/// A pair that is picked was not being tried, and is being tried after that; when
/// it is finished, everything is as it was before.
pub proof fn law_no_pair_twice(pairs: Seq<TsoPair>, busy: Seq<bool>, random: int)
    requires
        busy.len() == pairs.len(),
        free_offsets(busy).len() > 0,
        random >= 0,
        forall|i: int, j: int|
            0 <= i < pairs.len() && 0 <= j < pairs.len() && same_connection(
                #[trigger] pairs[i],
                #[trigger] pairs[j],
            ) ==> busy[i] == busy[j],
    ensures
        ({
            let free = free_offsets(busy);
            let at = free[random % free.len() as int];
            let after = marked(pairs, busy, pairs[at], true);
            &&& 0 <= at < pairs.len()
            &&& !busy[at]
            &&& after[at]
            &&& marked(pairs, after, pairs[at], false) == busy
        }),
{
    let free = free_offsets(busy);
    let at = free[random % free.len() as int];
    lemma_free_offsets(busy);
    assert(0 <= random % free.len() as int) by (nonlinear_arith)
        requires
            free.len() > 0,
            random >= 0,
    ;
    assert(random % (free.len() as int) < free.len());
    assert(!busy[at]);
    let after = marked(pairs, busy, pairs[at], true);
    assert(same_connection(pairs[at], pairs[at]));
    assert(marked(pairs, after, pairs[at], false) =~= busy);
}

/// The addresses to try are ordered by port, and no address stands beside itself.
pub proof fn law_targets_ordered(s: Seq<SocketAddr>)
    ensures
        ordered_by_port(dedup(sort_by_port(s))),
        forall|i: int|
            0 <= i < dedup(sort_by_port(s)).len() - 1 ==> #[trigger] dedup(sort_by_port(s))[i]
                != dedup(sort_by_port(s))[i + 1],
        forall|a: SocketAddr| #[trigger] dedup(sort_by_port(s)).contains(a) <==> s.contains(a),
{
    broadcast use vstd::seq_lib::group_to_multiset_ensures;

    let t = sort_by_port(s);
    lemma_sort_by_port(s);
    lemma_dedup(t);
    assert forall|a: SocketAddr| #[trigger] dedup(t).contains(a) <==> s.contains(a) by {
        assert(t.contains(a) <==> t.to_multiset().count(a) > 0);
        assert(s.contains(a) <==> s.to_multiset().count(a) > 0);
        assert(dedup(t).contains(a) <==> t.contains(a));
    }
}

proof fn lemma_dedup(s: Seq<SocketAddr>)
    requires
        ordered_by_port(s),
    ensures
        ordered_by_port(dedup(s)),
        s.len() > 0 ==> dedup(s).len() > 0 && dedup(s).last() == s.last(),
        forall|i: int|
            0 <= i < dedup(s).len() - 1 ==> #[trigger] dedup(s)[i] != dedup(s)[i + 1],
        forall|a: SocketAddr| #[trigger] dedup(s).contains(a) <==> s.contains(a),
    decreases s.len(),
{
    if s.len() >= 2 {
        let front = s.drop_last();
        let d = dedup(front);
        assert forall|i: int, j: int| 0 <= i < j < front.len() implies (
        #[trigger] front[i])@.port() <= (#[trigger] front[j])@.port() by {
            assert(s[i]@.port() <= s[j]@.port());
        }
        lemma_dedup(front);
        assert(front.last() == s[s.len() - 2]);
        let e = dedup(s);
        assert forall|a: SocketAddr| #[trigger] e.contains(a) <==> s.contains(a) by {
            assert(d.contains(a) <==> front.contains(a));
            if s.contains(a) {
                let k = choose|k: int| 0 <= k < s.len() && s[k] == a;
                if k < front.len() {
                    assert(front[k] == a);
                    let m = choose|m: int| 0 <= m < d.len() && d[m] == a;
                    assert(e[m] == a);
                } else {
                    assert(e[e.len() - 1] == a);
                }
            }
            if e.contains(a) {
                let m = choose|m: int| 0 <= m < e.len() && e[m] == a;
                if m < d.len() {
                    assert(d[m] == a);
                    let k = choose|k: int| 0 <= k < front.len() && front[k] == a;
                    assert(s[k] == a);
                } else {
                    assert(s[s.len() - 1] == a);
                }
            }
        }
        assert forall|i: int, j: int| 0 <= i < j < e.len() implies (#[trigger] e[i])@.port() <= (
        #[trigger] e[j])@.port() by {
            if j < d.len() {
                assert(d[i]@.port() <= d[j]@.port());
            } else {
                assert(d[i]@.port() <= d[d.len() - 1]@.port());
                assert(s[s.len() - 2]@.port() <= s[s.len() - 1]@.port());
            }
        }
    }
}

/// The addresses to try are all endpoints and, at the IP address of the first, every
/// port that was predicted, whatever the step of the NAT is. Where the step is not
/// known, there is a port for each random number besides, from 128 below the range of
/// the peer up to 128 above it, as far as there are such ports. There are no others,
/// they are ordered by port, and no endpoint or predicted port is left out.
pub proof fn law_targets(
    endpoints: Seq<SocketAddr>,
    predicted: Seq<u16>,
    port_delta: Option<u16>,
    mappable_start: u16,
    mappable_end: u16,
    random: Seq<u32>,
    r: Seq<SocketAddr>,
)
    requires
        endpoints.len() > 0,
        is_target_list(
            endpoints,
            extra_ports(predicted, port_delta, mappable_start, mappable_end, random),
            r,
        ),
    ensures
        forall|e: int|
            #![trigger endpoints[e]]
            0 <= e < endpoints.len() ==> exists|i: int|
                0 <= i < r.len() && #[trigger] r[i] == endpoints[e],
        forall|p: int|
            #![trigger predicted[p]]
            0 <= p < predicted.len() ==> exists|i: int|
                0 <= i < r.len() && (#[trigger] r[i])@ == endpoints[0]@.ip_at(predicted[p]),
        port_delta is None ==> forall|n: int|
            #![trigger random[n]]
            0 <= n < random.len() ==> exists|i: int|
                0 <= i < r.len() && is_random_target(
                    endpoints[0],
                    mappable_start as int,
                    mappable_end as int,
                    random[n] as int,
                    #[trigger] r[i],
                ),
        forall|i: int|
            #![trigger r[i]]
            0 <= i < r.len() ==> endpoints.contains(r[i]) || (exists|p: int|
                0 <= p < predicted.len() && r[i]@ == endpoints[0]@.ip_at(#[trigger] predicted[p]))
                || port_delta is None && exists|n: int|
                0 <= n < random.len() && is_random_target(
                    endpoints[0],
                    mappable_start as int,
                    mappable_end as int,
                    #[trigger] random[n] as int,
                    r[i],
                ),
        forall|i: int, j: int|
            0 <= i < j < r.len() ==> (#[trigger] r[i])@.port() <= (#[trigger] r[j])@.port(),
{
    let extra = extra_ports(predicted, port_delta, mappable_start, mappable_end, random);
    let addrs = choose|addrs: Seq<SocketAddr>|
        {
            &&& #[trigger] at_ports(endpoints[0], extra, addrs)
            &&& r == dedup(sort_by_port(endpoints + addrs))
        };
    let all = endpoints + addrs;
    law_targets_ordered(all);
    assert forall|e: int| #![trigger endpoints[e]] 0 <= e < endpoints.len() implies exists|i: int|
        0 <= i < r.len() && #[trigger] r[i] == endpoints[e] by {
        assert(all[e] == endpoints[e]);
        assert(r.contains(all[e]));
        let i = choose|i: int| 0 <= i < r.len() && r[i] == all[e];
        assert(r[i] == endpoints[e]);
    }
    assert forall|x: int| 0 <= x < extra.len() implies exists|i: int|
        0 <= i < r.len() && (#[trigger] r[i])@ == endpoints[0]@.ip_at(#[trigger] extra[x]) by {
        assert(all[endpoints.len() + x] == addrs[x]);
        assert(r.contains(addrs[x]));
        let i = choose|i: int| 0 <= i < r.len() && r[i] == addrs[x];
        assert(r[i]@ == endpoints[0]@.ip_at(extra[x]));
    }
    assert forall|p: int| #![trigger predicted[p]] 0 <= p < predicted.len() implies exists|i: int|
        0 <= i < r.len() && (#[trigger] r[i])@ == endpoints[0]@.ip_at(predicted[p]) by {
        assert(extra[p] == predicted[p]);
    }
    let start = range_start(mappable_start);
    let len = range_len(mappable_start, mappable_end);
    if port_delta is None {
        assert forall|n: int| #![trigger random[n]] 0 <= n < random.len() implies exists|i: int|
            0 <= i < r.len() && is_random_target(
                endpoints[0],
                mappable_start as int,
                mappable_end as int,
                random[n] as int,
                #[trigger] r[i],
            ) by {
            let x = predicted.len() + n;
            assert(extra[x] == (start + random[n] as int % len) as u16);
            assert(0 <= random[n] as int % len < len);
            let i = choose|i: int|
                0 <= i < r.len() && (#[trigger] r[i])@ == endpoints[0]@.ip_at(extra[x]);
            assert(is_random_target(
                endpoints[0],
                mappable_start as int,
                mappable_end as int,
                random[n] as int,
                r[i],
            ));
        }
    }
    assert forall|i: int| #![trigger r[i]] 0 <= i < r.len() implies endpoints.contains(r[i]) || (
    exists|p: int|
        0 <= p < predicted.len() && r[i]@ == endpoints[0]@.ip_at(#[trigger] predicted[p]))
        || port_delta is None && exists|n: int|
        0 <= n < random.len() && is_random_target(
            endpoints[0],
            mappable_start as int,
            mappable_end as int,
            #[trigger] random[n] as int,
            r[i],
        ) by {
        assert(r.contains(r[i]));
        assert(all.contains(r[i]));
        let y = choose|y: int| 0 <= y < all.len() && all[y] == r[i];
        if y < endpoints.len() {
            assert(endpoints[y] == r[i]);
        } else {
            let x = y - endpoints.len();
            assert(addrs[x] == r[i]);
            if x < predicted.len() {
                assert(extra[x] == predicted[x]);
            } else {
                let n = x - predicted.len();
                assert(extra[x] == (start + random[n] as int % len) as u16);
                assert(0 <= random[n] as int % len < len);
                assert(is_random_target(
                    endpoints[0],
                    mappable_start as int,
                    mappable_end as int,
                    random[n] as int,
                    r[i],
                ));
            }
        }
    }
}

/// Whether an address is what a random number stands for: the IP address of another, with
/// the port that lies as far behind the first of a range as the remainder of the number
/// says, where the range is divided by.
pub open spec fn is_random_target(
    first: SocketAddr,
    mappable_start: int,
    mappable_end: int,
    random: int,
    a: SocketAddr,
) -> bool {
    let low = if mappable_start > 128 {
        mappable_start - 128
    } else {
        0
    };
    let high = if mappable_end < 65407 {
        mappable_end + 128
    } else {
        65535
    };
    let width = if low < high {
        high - low
    } else {
        1
    };
    a@ == first@.ip_at(a@.port()) && a@.port() == low + random % width
}

/// One attempt takes five seconds at least and ten at most, longer with a longer round
/// trip, and twenty round trips in between. Without a known round trip it is taken for
/// 200 milliseconds.
pub proof fn law_attempt_timeout(rtt: Option<u64>, longer: Option<u64>)
    requires
        rtt is Some,
        longer is Some,
        rtt->0 <= longer->0,
    ensures
        5000 <= attempt_timeout(rtt) <= attempt_timeout(longer) <= 10000,
        250 <= rtt->0 <= 500 ==> attempt_timeout(rtt) == 20 * rtt->0,
        rtt->0 < 250 ==> attempt_timeout(rtt) == 5000,
        attempt_timeout(None) == attempt_timeout(Some(200u64)),
{
}

/// Between a local address and some targets every connection is tried that there can be:
/// from each of so many local ports, as far as there are so many, to each target; and
/// every pair is one of these, from the local address.
pub proof fn law_pairs(
    bind: SocketAddr,
    port_start: u16,
    count: u16,
    targets: Seq<SocketAddr>,
    pairs: Seq<TsoPair>,
)
    requires
        is_pair_list(bind, port_start, count, targets, pairs),
    ensures
        forall|port: int, t: int|
            #![trigger is_pair_of(bind, port, targets[t], pairs)]
            port_start <= port < port_start + count && port <= 65535 && 0 <= t < targets.len()
                ==> is_pair_of(bind, port, targets[t], pairs),
        forall|n: int|
            0 <= n < pairs.len() ==> {
                let p = #[trigger] pairs[n];
                &&& port_start <= p.local@.port() < port_start + count
                &&& p.local@ == bind@.ip_at(p.local@.port())
                &&& targets.contains(p.remote)
            },
{
    let m = targets.len() as int;
    let last = ports_there(port_start, count);
    assert forall|port: int, t: int|
        #![trigger is_pair_of(bind, port, targets[t], pairs)]
        port_start <= port < port_start + count && port <= 65535 && 0 <= t < targets.len() implies is_pair_of(
        bind,
        port,
        targets[t],
        pairs,
    ) by {
        let i = port - port_start;
        let n = i * m + t;
        assert(0 <= i < last);
        assert(n < last * m) by (nonlinear_arith)
            requires
                n == i * m + t,
                0 <= i < last,
                0 <= t < m,
        ;
        assert(0 <= n) by (nonlinear_arith)
            requires
                n == i * m + t,
                0 <= i,
                0 <= t < m,
        ;
        let p = pairs[i * m + t];
        assert(pairs[n].remote == targets[t]);
    }
    assert forall|n: int| 0 <= n < pairs.len() implies {
        let p = #[trigger] pairs[n];
        &&& port_start <= p.local@.port() < port_start + count
        &&& p.local@ == bind@.ip_at(p.local@.port())
        &&& targets.contains(p.remote)
    } by {
        assert(m > 0) by (nonlinear_arith)
            requires
                0 <= n < last * m,
                m >= 0,
        ;
        let i = n / m;
        let t = n % m;
        assert(n == i * m + t && 0 <= t < m && 0 <= i < last) by (nonlinear_arith)
            requires
                i == n / m,
                t == n % m,
                m > 0,
                0 <= n < last * m,
        ;
        let p = pairs[i * m + t];
        assert(p.remote == targets[t]);
    }
}

/// Whether some pairs have the one of a local port and a target.
pub open spec fn is_pair_of(
    bind: SocketAddr,
    port: int,
    target: SocketAddr,
    pairs: Seq<TsoPair>,
) -> bool {
    exists|n: int|
        {
            &&& 0 <= n < pairs.len()
            &&& (#[trigger] pairs[n]).remote == target
            &&& pairs[n].local@ == bind@.ip_at(port as u16)
        }
}

/// Of all pairs just those that are not being tried may be picked next, each once, so that
/// every pair can have its turn.
pub proof fn law_free_pairs(busy: Seq<bool>)
    ensures
        forall|i: int|
            0 <= i < busy.len() ==> (!(#[trigger] busy[i]) <==> free_offsets(busy).contains(i)),
        forall|k: int|
            0 <= k < free_offsets(busy).len() ==> 0 <= #[trigger] free_offsets(busy)[k]
                < busy.len(),
        free_offsets(busy).no_duplicates(),
    decreases busy.len(),
{
    if busy.len() > 0 {
        let front = busy.drop_last();
        let f = free_offsets(front);
        let all = free_offsets(busy);
        law_free_pairs(front);
        assert forall|i: int| 0 <= i < busy.len() implies (!(#[trigger] busy[i])
            <==> all.contains(i)) by {
            if i < front.len() {
                assert(front[i] == busy[i]);
                if f.contains(i) {
                    let k = choose|k: int| 0 <= k < f.len() && f[k] == i;
                    assert(all[k] == i);
                }
                if all.contains(i) {
                    let k = choose|k: int| 0 <= k < all.len() && all[k] == i;
                    assert(f[k] == i);
                }
            } else {
                if !busy[i] {
                    assert(all[all.len() - 1] == i);
                } else if all.contains(i) {
                    let k = choose|k: int| 0 <= k < all.len() && all[k] == i;
                    assert(0 <= f[k] < front.len());
                }
            }
        }
        assert forall|k: int| 0 <= k < all.len() implies 0 <= #[trigger] all[k] < busy.len() by {
            if k < f.len() {
                assert(all[k] == f[k]);
            }
        }
        assert forall|k: int, l: int| 0 <= k < all.len() && 0 <= l < all.len() && k
            != l implies all[k] != all[l] by {
            if k < f.len() && l < f.len() {
                assert(f[k] != f[l]);
            } else if k < f.len() {
                assert(0 <= f[k] < front.len());
            } else if l < f.len() {
                assert(0 <= f[l] < front.len());
            }
        }
    }
}

} // verus!
