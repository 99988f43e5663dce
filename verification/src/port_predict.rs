//! Predicting the ports that a NAT will give out.
use vstd::prelude::*;

verus! {

/// Whether `port` lies some steps ahead of one of the base ports, no more than
/// `max_offset` of them, each of width `delta`, around the end of the port range.
pub open spec fn reachable(base_ports: Seq<u16>, delta: u16, max_offset: u16, port: u16) -> bool {
    exists|b: int, n: int|
        #![trigger step_from(base_ports[b], n, delta)]
        0 <= b < base_ports.len() && 1 <= n <= max_offset && port == step_from(
            base_ports[b],
            n,
            delta,
        )
}

/// The port `n` steps ahead of `base`.
pub open spec fn step_from(base: u16, n: int, delta: u16) -> u16 {
    ((base + n * delta) % 0x1_0000) as u16
}

/// Whether a list is strictly ascending.
pub open spec fn ascending(s: Seq<u16>) -> bool {
    forall|i: int, j: int| 0 <= i < j < s.len() ==> #[trigger] s[i] < #[trigger] s[j]
}

/// Whether `r` lists what a linear predictor predicts: in ascending order, each
/// once, the ports that can be reached and that are no base ports.
pub open spec fn is_prediction(
    base_ports: Seq<u16>,
    port_delta: Option<u16>,
    max_offset: u16,
    r: Seq<u16>,
) -> bool {
    match port_delta {
        None => r.len() == 0,
        Some(d) => if d == 0 {
            r.len() == 0
        } else {
            &&& ascending(r)
            &&& forall|p: u16|
                #![trigger r.contains(p)]
                r.contains(p) <==> reachable(base_ports, d, max_offset, p)
                    && !base_ports.contains(p)
        },
    }
}

/// Predicts the external ports that a symmetric NAT gives to its next new
/// destinations. Other predictors than the linear one may be put in its place.
pub trait PortPredictor {
    /// What may be predicted from base ports, a port step and a round-trip time.
    spec fn predicts(
        &self,
        base_ports: Seq<u16>,
        port_delta: Option<u16>,
        stun_rtt_ms: Option<u64>,
        r: Seq<u16>,
    ) -> bool;

    /// The predicted ports. Without a port step, and for one of zero, there is no
    /// telling. The round-trip time may be used to adapt.
    fn predict(
        &self,
        base_ports: &[u16],
        port_delta: Option<u16>,
        stun_rtt_ms: Option<u64>,
    ) -> (r: Vec<u16>)
        ensures
            self.predicts(base_ports@, port_delta, stun_rtt_ms, r@),
    ;
}

/// Predicts that a NAT takes steps of equal width from port to port.
#[derive(Debug)]
pub struct LinearPredictor {
    max_offset: u16,
}

impl LinearPredictor {
    /// How many steps ahead are predicted.
    pub closed spec fn steps(&self) -> u16 {
        self.max_offset
    }

    /// A predictor that looks so many steps ahead of each base port.
    pub fn new(max_offset: u16) -> (r: Self)
        ensures
            r.steps() == max_offset,
    {
        LinearPredictor { max_offset }
    }
}

impl Default for LinearPredictor {
    /// Twenty steps ahead.
    fn default() -> (r: Self)
        ensures
            r.steps() == 20,
    {
        LinearPredictor { max_offset: 20 }
    }
}

/// Whether a port is in a list.
pub fn contains_port(ports: &[u16], port: u16) -> (r: bool)
    ensures
        r == ports@.contains(port),
{
    let mut i: usize = 0;
    while i < ports.len()
        invariant
            i <= ports@.len(),
            forall|j: int| 0 <= j < i ==> ports@[j] != port,
        decreases ports@.len() - i,
    {
        if ports[i] == port {
            return true;
        }
        i = i + 1;
    }
    false
}

/// Puts a port where it belongs in an ascending list, unless it is there.
pub fn insert_port(ports: &mut Vec<u16>, port: u16)
    requires
        ascending(old(ports)@),
    ensures
        ascending(final(ports)@),
        forall|p: u16|
            #![trigger final(ports)@.contains(p)]
            final(ports)@.contains(p) <==> old(ports)@.contains(p) || p == port,
{
    let mut i: usize = 0;
    while i < ports.len() && ports[i] < port
        invariant
            i <= ports@.len(),
            ports@ == old(ports)@,
            ascending(ports@),
            forall|j: int| 0 <= j < i ==> ports@[j] < port,
        decreases ports@.len() - i,
    {
        i = i + 1;
    }
    let ghost before = ports@;
    if i < ports.len() && ports[i] == port {
        assert(before[i as int] == port);
        return;
    }
    ports.insert(i, port);
    proof {
        let after = ports@;
        let k = i as int;
        assert forall|a: int, b: int| 0 <= a < b < after.len() implies #[trigger] after[a]
            < #[trigger] after[b] by {
            let a2 = if a < k {
                a
            } else {
                a - 1
            };
            let b2 = if b < k {
                b
            } else {
                b - 1
            };
            if a != k && b != k {
                assert(before[a2] < before[b2]);
            } else if a == k {
                assert(before[k] > port);
                if b2 > k {
                    assert(before[k] < before[b2]);
                }
            } else {
                assert(before[a2] < port);
            }
        }
        assert forall|p: u16| #![trigger after.contains(p)] after.contains(p) <==> before.contains(
            p,
        ) || p == port by {
            if after.contains(p) {
                let j = choose|j: int| 0 <= j < after.len() && after[j] == p;
                if j < k {
                    assert(before[j] == p);
                } else if j > k {
                    assert(before[j - 1] == p);
                }
            }
            if before.contains(p) {
                let j = choose|j: int| 0 <= j < before.len() && before[j] == p;
                if j < k {
                    assert(after[j] == p);
                } else {
                    assert(after[j + 1] == p);
                }
            }
            if p == port {
                assert(after[k] == p);
            }
        }
    }
}

/// Whether a port is reached from the first `b` base ports, or from the next one
/// in the first `n` steps.
spec fn reached_so_far(
    base_ports: Seq<u16>,
    delta: u16,
    max_offset: u16,
    b: int,
    n: int,
    port: u16,
) -> bool {
    reachable(base_ports.subrange(0, b), delta, max_offset, port) || exists|m: int|
        1 <= m <= n && port == #[trigger] step_from(base_ports[b], m, delta)
}

impl PortPredictor for LinearPredictor {
    open spec fn predicts(
        &self,
        base_ports: Seq<u16>,
        port_delta: Option<u16>,
        stun_rtt_ms: Option<u64>,
        r: Seq<u16>,
    ) -> bool {
        is_prediction(base_ports, port_delta, self.steps(), r)
    }

    fn predict(
        &self,
        base_ports: &[u16],
        port_delta: Option<u16>,
        stun_rtt_ms: Option<u64>,
    ) -> (r: Vec<u16>) {
        let mut r: Vec<u16> = Vec::new();
        let delta: u16 = match port_delta {
            None => {
                return r;
            },
            Some(d) => d,
        };
        if delta == 0 {
            return r;
        }
        let ghost bases = base_ports@;
        let ghost max = self.max_offset;
        let mut i: usize = 0;
        assert forall|p: u16| !#[trigger] r@.contains(p) by {}
        while i < base_ports.len()
            invariant
                i <= bases.len(),
                bases == base_ports@,
                max == self.max_offset,
                ascending(r@),
                forall|p: u16|
                    #![trigger r@.contains(p)]
                    r@.contains(p) <==> reachable(bases.subrange(0, i as int), delta, max, p)
                        && !bases.contains(p),
            decreases bases.len() - i,
        {
            let base: u16 = base_ports[i];
            let mut n: u16 = 0;
            let mut port: u16 = base;
            proof {
                assert forall|p: u16| #![trigger r@.contains(p)] r@.contains(p)
                    <==> reached_so_far(bases, delta, max, i as int, 0, p) && !bases.contains(
                    p,
                ) by {}
                assert(base + 0 * delta == base);
            }
            while n < self.max_offset
                invariant
                    n <= max,
                    max == self.max_offset,
                    i < bases.len(),
                    bases == base_ports@,
                    base == bases[i as int],
                    port == (base + n * delta) % 0x1_0000,
                    ascending(r@),
                    forall|p: u16|
                        #![trigger r@.contains(p)]
                        r@.contains(p) <==> reached_so_far(
                            bases,
                            delta,
                            max,
                            i as int,
                            n as int,
                            p,
                        ) && !bases.contains(p),
                decreases max - n,
            {
                let ghost before = r@;
                port = port.wrapping_add(delta);
                n = n + 1;
                proof {
                    let x = base + (n - 1) * delta;
                    assert(base + n * delta == x + delta) by (nonlinear_arith)
                        requires
                            x == base + (n - 1) * delta,
                    ;
                    assert(port as int == (x % 0x1_0000 + delta) % 0x1_0000);
                    assert((x % 0x1_0000 + delta) % 0x1_0000 == (x + delta) % 0x1_0000);
                    assert(port == step_from(base, n as int, delta));
                }
                if !contains_port(base_ports, port) {
                    insert_port(&mut r, port);
                }
                proof {
                    assert forall|p: u16| #![trigger r@.contains(p)] r@.contains(p)
                        <==> reached_so_far(bases, delta, max, i as int, n as int, p)
                        && !bases.contains(p) by {
                        assert(before.contains(p) <==> reached_so_far(
                            bases,
                            delta,
                            max,
                            i as int,
                            n - 1,
                            p,
                        ) && !bases.contains(p));
                        if reached_so_far(bases, delta, max, i as int, n as int, p)
                            && !reached_so_far(bases, delta, max, i as int, n - 1, p) {
                            let m = choose|m: int|
                                1 <= m <= n && p == #[trigger] step_from(bases[i as int], m, delta);
                            assert(m == n);
                        }
                        if p == port {
                            assert(p == step_from(bases[i as int], n as int, delta));
                        }
                    }
                }
            }
            proof {
                let head = bases.subrange(0, i as int);
                let next = bases.subrange(0, i + 1);
                assert forall|p: u16| #![trigger r@.contains(p)] r@.contains(p) <==> reachable(
                    next,
                    delta,
                    max,
                    p,
                ) && !bases.contains(p) by {
                    if reachable(next, delta, max, p) {
                        let (b, m) = choose|b: int, m: int|
                            #![trigger step_from(next[b], m, delta)]
                            0 <= b < next.len() && 1 <= m <= max && p == step_from(
                                next[b],
                                m,
                                delta,
                            );
                        if b < i {
                            assert(p == step_from(head[b], m, delta));
                        } else {
                            assert(p == step_from(bases[i as int], m, delta));
                        }
                    }
                    if reached_so_far(bases, delta, max, i as int, max as int, p) {
                        if reachable(head, delta, max, p) {
                            let (b, m) = choose|b: int, m: int|
                                #![trigger step_from(head[b], m, delta)]
                                0 <= b < head.len() && 1 <= m <= max && p == step_from(
                                    head[b],
                                    m,
                                    delta,
                                );
                            assert(p == step_from(next[b], m, delta));
                        } else {
                            let m = choose|m: int|
                                1 <= m <= max && p == #[trigger] step_from(
                                    bases[i as int],
                                    m,
                                    delta,
                                );
                            assert(p == step_from(next[i as int], m, delta));
                        }
                    }
                }
            }
            i = i + 1;
        }
        assert(bases.subrange(0, i as int) =~= bases);
        r
    }
}

/// A prediction is fully determined: two lists that are predictions from the same
/// ports are the same list.
pub proof fn law_prediction_unique(
    base_ports: Seq<u16>,
    port_delta: Option<u16>,
    max_offset: u16,
    r: Seq<u16>,
    s: Seq<u16>,
)
    requires
        is_prediction(base_ports, port_delta, max_offset, r),
        is_prediction(base_ports, port_delta, max_offset, s),
    ensures
        r == s,
{
    match port_delta {
        None => {
            assert(r =~= s);
        },
        Some(d) => {
            if d == 0 {
                assert(r =~= s);
            } else {
                assert forall|p: u16| #![trigger r.contains(p)] r.contains(p) <==> s.contains(p) by {
                    assert(s.contains(p) <==> reachable(base_ports, d, max_offset, p)
                        && !base_ports.contains(p));
                }
                lemma_ascending_unique(r, s);
            }
        },
    }
}

/// Ascending lists with the same elements are equal.
pub proof fn lemma_ascending_unique(r: Seq<u16>, s: Seq<u16>)
    requires
        ascending(r),
        ascending(s),
        forall|p: u16| #![trigger r.contains(p)] r.contains(p) <==> s.contains(p),
    ensures
        r == s,
    decreases r.len(),
{
    if r.len() == 0 {
        if s.len() > 0 {
            assert(s.contains(s[0]));
            assert(r.contains(s[0]));
        }
        assert(r =~= s);
    } else {
        assert(r.contains(r.last()));
        assert(s.contains(r.last()));
        let j = choose|j: int| 0 <= j < s.len() && s[j] == r.last();
        assert(s.contains(s.last()));
        assert(r.contains(s.last()));
        let i = choose|i: int| 0 <= i < r.len() && r[i] == s.last();
        if j < s.len() - 1 {
            assert(s[j] < s[s.len() - 1]);
            if i < r.len() - 1 {
                assert(r[i] < r[r.len() - 1]);
            }
        }
        assert(r.last() == s.last());
        let a = r.drop_last();
        let b = s.drop_last();
        assert forall|p: u16| #![trigger a.contains(p)] a.contains(p) <==> b.contains(p) by {
            if a.contains(p) {
                let k = choose|k: int| 0 <= k < a.len() && a[k] == p;
                assert(r[k] == p);
                assert(r[k] < r[r.len() - 1]);
                assert(r.contains(p));
                let m = choose|m: int| 0 <= m < s.len() && s[m] == p;
                assert(b[m] == p);
            }
            if b.contains(p) {
                let k = choose|k: int| 0 <= k < b.len() && b[k] == p;
                assert(s[k] == p);
                assert(s[k] < s[s.len() - 1]);
                assert(s.contains(p));
                assert(r.contains(p));
                let m = choose|m: int| 0 <= m < r.len() && r[m] == p;
                assert(a[m] == p);
            }
        }
        lemma_ascending_unique(a, b);
        assert(a.push(r.last()) =~= r);
        assert(b.push(s.last()) =~= s);
    }
}

/// No predicted port is a base port, and none is listed twice.
pub proof fn law_prediction_disjoint(
    base_ports: Seq<u16>,
    port_delta: Option<u16>,
    max_offset: u16,
    r: Seq<u16>,
)
    requires
        is_prediction(base_ports, port_delta, max_offset, r),
    ensures
        r.no_duplicates(),
        forall|i: int| 0 <= i < r.len() ==> !base_ports.contains(#[trigger] r[i]),
{
    assert forall|i: int| 0 <= i < r.len() implies !base_ports.contains(#[trigger] r[i]) by {
        assert(r.contains(r[i]));
    }
}

/// The ports that are predicted for a NAT that takes steps of some width are those that
/// lie one to so many steps ahead of a base port, counted on from 0 behind 65535, but for
/// the base ports themselves. They are listed in ascending order. Where the width is not
/// known, or zero, there are none.
pub proof fn law_prediction(
    base_ports: Seq<u16>,
    port_delta: Option<u16>,
    max_offset: u16,
    r: Seq<u16>,
)
    requires
        is_prediction(base_ports, port_delta, max_offset, r),
    ensures
        port_delta is None || port_delta == Some(0u16) ==> r.len() == 0,
        forall|i: int, j: int| 0 <= i < j < r.len() ==> #[trigger] r[i] < #[trigger] r[j],
        port_delta matches Some(d) ==> d > 0 ==> {
            &&& forall|b: int, n: int|
                #![trigger lies_ahead(base_ports[b] as int, n, d as int)]
                0 <= b < base_ports.len() && 1 <= n <= max_offset ==> {
                    let p = lies_ahead(base_ports[b] as int, n, d as int) as u16;
                    r.contains(p) || base_ports.contains(p)
                }
            &&& forall|i: int|
                #![trigger r[i]]
                0 <= i < r.len() ==> !base_ports.contains(r[i]) && exists|b: int, n: int|
                    {
                        &&& 0 <= b < base_ports.len() && 1 <= n <= max_offset
                        &&& r[i] == #[trigger] lies_ahead(base_ports[b] as int, n, d as int)
                    }
        },
{
    if let Some(d) = port_delta {
        if d > 0 {
            assert forall|b: int, n: int|
                #![trigger lies_ahead(base_ports[b] as int, n, d as int)]
                0 <= b < base_ports.len() && 1 <= n <= max_offset implies {
                let p = lies_ahead(base_ports[b] as int, n, d as int) as u16;
                r.contains(p) || base_ports.contains(p)
            } by {
                let p = lies_ahead(base_ports[b] as int, n, d as int) as u16;
                assert(p == step_from(base_ports[b], n, d));
                assert(reachable(base_ports, d, max_offset, p));
                assert(r.contains(p) <==> reachable(base_ports, d, max_offset, p)
                    && !base_ports.contains(p));
            }
            assert forall|i: int| #![trigger r[i]] 0 <= i < r.len() implies !base_ports.contains(
                r[i],
            ) && exists|b: int, n: int|
                {
                    &&& 0 <= b < base_ports.len() && 1 <= n <= max_offset
                    &&& r[i] == #[trigger] lies_ahead(base_ports[b] as int, n, d as int)
                } by {
                assert(r.contains(r[i]));
                let (b, n) = choose|b: int, n: int|
                    #![trigger step_from(base_ports[b], n, d)]
                    0 <= b < base_ports.len() && 1 <= n <= max_offset && r[i] == step_from(
                        base_ports[b],
                        n,
                        d,
                    );
                assert(0 <= base_ports[b] + n * d) by (nonlinear_arith)
                    requires
                        n >= 1,
                        d > 0,
                        base_ports[b] >= 0,
                ;
                assert(r[i] == lies_ahead(base_ports[b] as int, n, d as int));
            }
        }
    }
}

/// The number so many steps ahead of another, where the ports are counted round.
pub open spec fn lies_ahead(base: int, n: int, width: int) -> int {
    (base + n * width) % 65536
}

} // verus!
