//! Changes of the addresses that the machine has.
use crate::endpoint;
use crate::endpoint::{AddrView, SocketAddr};
use vstd::prelude::*;

verus! {

/// Whether an address is that of the machine itself: 127.0.0.0/8 or ::1.
pub open spec fn is_loopback_view(a: AddrView) -> bool {
    match a {
        AddrView::V4 { octets, port } => octets[0] == 127,
        AddrView::V6 { octets, port, flowinfo, scope_id } => {
            &&& forall|i: int| 0 <= i < 15 ==> #[trigger] octets[i] == 0
            &&& octets[15] == 1
        },
    }
}

/// Whether an address is that of the machine itself.
pub fn is_loopback(a: &SocketAddr) -> (r: bool)
    ensures
        r == is_loopback_view(a@),
{
    match a {
        SocketAddr::V4(v) => v.ip[0] == 127,
        SocketAddr::V6(v) => {
            let mut i: usize = 0;
            while i < 15
                invariant
                    *a == SocketAddr::V6(*v),
                    i <= 15,
                    forall|j: int| 0 <= j < i ==> #[trigger] v.ip@[j] == 0,
                decreases 15 - i,
            {
                if v.ip[i] != 0 {
                    assert(v.ip@[i as int] != 0);
                    return false;
                }
                i = i + 1;
            }
            v.ip[15] == 1
        },
    }
}

/// Whether an address stands in a list.
fn holds(list: &[SocketAddr], a: &SocketAddr) -> (r: bool)
    ensures
        r == list@.contains(*a),
{
    let mut i: usize = 0;
    while i < list.len()
        invariant
            i <= list@.len(),
            forall|j: int| 0 <= j < i ==> #[trigger] list@[j] != *a,
        decreases list@.len() - i,
    {
        if list[i] == *a {
            assert(list@[i as int] == *a);
            return true;
        }
        i = i + 1;
    }
    false
}

/// Those of some addresses that others can reach, without their ports, in their
/// order.
pub open spec fn outside_addrs(ifaces: Seq<SocketAddr>) -> Seq<AddrView>
    decreases ifaces.len(),
{
    if ifaces.len() == 0 {
        Seq::empty()
    } else {
        let front = outside_addrs(ifaces.drop_last());
        if is_loopback_view(ifaces.last()@) {
            front
        } else {
            front.push(ifaces.last()@.ip_at(0))
        }
    }
}

/// The addresses of a list, as values.
pub open spec fn addr_views(s: Seq<SocketAddr>) -> Seq<AddrView> {
    s.map_values(|a: SocketAddr| a@)
}

/// The elements of one list that do not stand in another, in their order.
pub open spec fn not_in(a: Seq<SocketAddr>, b: Seq<SocketAddr>) -> Seq<SocketAddr>
    decreases a.len(),
{
    if a.len() == 0 {
        a
    } else {
        let front = not_in(a.drop_last(), b);
        if b.contains(a.last()) {
            front
        } else {
            front.push(a.last())
        }
    }
}

/// The elements of one list that do not stand in another.
fn difference(a: &[SocketAddr], b: &[SocketAddr]) -> (r: Vec<SocketAddr>)
    ensures
        r@ == not_in(a@, b@),
{
    let mut r: Vec<SocketAddr> = Vec::new();
    let mut i: usize = 0;
    assert(a@.subrange(0, 0) =~= Seq::empty());
    while i < a.len()
        invariant
            i <= a@.len(),
            r@ == not_in(a@.subrange(0, i as int), b@),
        decreases a@.len() - i,
    {
        proof {
            let next = a@.subrange(0, i + 1);
            assert(next.drop_last() =~= a@.subrange(0, i as int));
            assert(next.last() == a@[i as int]);
        }
        if !holds(b, &a[i]) {
            r.push(a[i]);
        }
        i = i + 1;
    }
    assert(a@.subrange(0, i as int) =~= a@);
    r
}

/// A list without the elements that stood in it before.
pub open spec fn first_ones<A>(s: Seq<A>) -> Seq<A>
    decreases s.len(),
{
    if s.len() == 0 {
        s
    } else {
        let front = first_ones(s.drop_last());
        if front.contains(s.last()) {
            front
        } else {
            front.push(s.last())
        }
    }
}

/// Each element of a list stands once among the first ones, and nothing else does.
proof fn lemma_first_ones<A>(s: Seq<A>)
    ensures
        first_ones(s).no_duplicates(),
        first_ones(s).to_set() == s.to_set(),
    decreases s.len(),
{
    let r = first_ones(s);
    if s.len() > 0 {
        let front = s.drop_last();
        let f = first_ones(front);
        lemma_first_ones(front);
        assert(s =~= front.push(s.last()));
        assert forall|x: A| #[trigger] r.to_set().contains(x) <==> s.to_set().contains(x) by {
            assert(f.contains(x) <==> f.to_set().contains(x));
            assert(front.contains(x) <==> front.to_set().contains(x));
            if s.contains(x) {
                let k = choose|k: int| 0 <= k < s.len() && s[k] == x;
                if k < front.len() {
                    assert(front[k] == x);
                    let m = choose|m: int| 0 <= m < f.len() && f[m] == x;
                    assert(r[m] == x);
                } else if !f.contains(x) {
                    assert(r[r.len() - 1] == x);
                }
            }
            if r.contains(x) {
                let m = choose|m: int| 0 <= m < r.len() && r[m] == x;
                if m < f.len() {
                    assert(f[m] == x);
                    let k = choose|k: int| 0 <= k < front.len() && front[k] == x;
                    assert(s[k] == x);
                } else {
                    assert(s[s.len() - 1] == x);
                }
            }
        }
        if !f.contains(s.last()) {
            assert forall|a: int, b: int| 0 <= a < r.len() && 0 <= b < r.len() && a
                != b implies r[a] != r[b] by {
                if a < f.len() && b < f.len() {
                    assert(f[a] != f[b]);
                } else if a < f.len() {
                    assert(f.contains(f[a]));
                } else {
                    assert(f.contains(f[b]));
                }
            }
        }
    }
    assert(r.to_set() =~= s.to_set());
}

/// The first ones of some addresses, as values, are the first ones of the values.
proof fn lemma_first_views(s: Seq<SocketAddr>)
    ensures
        addr_views(first_ones(s)) == first_ones(addr_views(s)),
    decreases s.len(),
{
    if s.len() > 0 {
        let front = s.drop_last();
        let f = first_ones(front);
        lemma_first_views(front);
        assert(addr_views(s).drop_last() =~= addr_views(front));
        assert(f.contains(s.last()) <==> addr_views(f).contains(s.last()@)) by {
            if f.contains(s.last()) {
                let k = choose|k: int| 0 <= k < f.len() && f[k] == s.last();
                assert(addr_views(f)[k] == s.last()@);
            }
            if addr_views(f).contains(s.last()@) {
                let k = choose|k: int| 0 <= k < f.len() && addr_views(f)[k] == s.last()@;
                endpoint::lemma_addr_ext(f[k], s.last());
            }
        }
    }
    assert(addr_views(first_ones(s)) =~= first_ones(addr_views(s)));
}

/// A list without the addresses that stood in it before.
fn distinct(list: &[SocketAddr]) -> (r: Vec<SocketAddr>)
    ensures
        r@ == first_ones(list@),
        r@.no_duplicates(),
{
    let mut r: Vec<SocketAddr> = Vec::new();
    let mut i: usize = 0;
    assert(list@.subrange(0, 0) =~= Seq::empty());
    while i < list.len()
        invariant
            i <= list@.len(),
            r@ == first_ones(list@.subrange(0, i as int)),
        decreases list@.len() - i,
    {
        proof {
            let next = list@.subrange(0, i + 1);
            assert(next.drop_last() =~= list@.subrange(0, i as int));
            assert(next.last() == list@[i as int]);
        }
        if !holds(r.as_slice(), &list[i]) {
            r.push(list[i]);
        }
        i = i + 1;
    }
    proof {
        assert(list@.subrange(0, i as int) =~= list@);
        lemma_first_ones(list@);
    }
    r
}

/// The machine's addresses that others can reach, of those of its interfaces, in their
/// order. An address that two interfaces have stands twice.
pub fn interface_addrs(ifaces: &[SocketAddr]) -> (r: Vec<SocketAddr>)
    ensures
        addr_views(r@) == outside_addrs(ifaces@),
{
    let mut r: Vec<SocketAddr> = Vec::new();
    let mut i: usize = 0;
    assert(ifaces@.subrange(0, 0) =~= Seq::empty());
    assert(addr_views(r@) =~= Seq::empty());
    while i < ifaces.len()
        invariant
            i <= ifaces@.len(),
            addr_views(r@) == outside_addrs(ifaces@.subrange(0, i as int)),
        decreases ifaces@.len() - i,
    {
        proof {
            let next = ifaces@.subrange(0, i + 1);
            assert(next.drop_last() =~= ifaces@.subrange(0, i as int));
            assert(next.last() == ifaces@[i as int]);
        }
        let ghost before = addr_views(r@);
        if !is_loopback(&ifaces[i]) {
            r.push(ifaces[i].ip_at(0));
            assert(addr_views(r@) =~= before.push(ifaces@[i as int]@.ip_at(0)));
        }
        i = i + 1;
    }
    assert(ifaces@.subrange(0, i as int) =~= ifaces@);
    r
}

/// Watches the addresses of the machine.
#[derive(Debug)]
pub struct InterfaceWatcher {
    last_addrs: Vec<SocketAddr>,
}

impl InterfaceWatcher {
    /// The addresses that were there the last time.
    pub closed spec fn known(&self) -> Seq<SocketAddr> {
        self.last_addrs@
    }

    /// No address stands twice.
    pub open spec fn wf(&self) -> bool {
        self.known().no_duplicates()
    }

    /// A watcher that knows of no address.
    pub fn new() -> (r: Self)
        ensures
            r.wf(),
            r.known() == Seq::<SocketAddr>::empty(),
    {
        InterfaceWatcher { last_addrs: Vec::new() }
    }

    /// The machine's addresses that others can reach, of those of its interfaces, each
    /// once.
    pub fn current_addrs(ifaces: &[SocketAddr]) -> (r: Vec<SocketAddr>)
        ensures
            addr_views(r@) == first_ones(outside_addrs(ifaces@)),
            r@.no_duplicates(),
    {
        let all: Vec<SocketAddr> = interface_addrs(ifaces);
        proof {
            lemma_first_views(all@);
        }
        distinct(all.as_slice())
    }

    /// What came and what went since the last time, of the addresses that there are
    /// now, each once. Where anything did, these are kept.
    pub fn check(&mut self, current: Vec<SocketAddr>) -> (r: (Vec<SocketAddr>, Vec<SocketAddr>))
        requires
            old(self).wf(),
        ensures
            final(self).wf(),
            r.0@ == not_in(first_ones(current@), old(self).known()),
            r.1@ == not_in(old(self).known(), current@),
            r.0@.no_duplicates(),
            r.1@.no_duplicates(),
            final(self).known() == if r.0@.len() > 0 || r.1@.len() > 0 {
                first_ones(current@)
            } else {
                old(self).known()
            },
    {
        let now: Vec<SocketAddr> = distinct(current.as_slice());
        let added: Vec<SocketAddr> = difference(now.as_slice(), self.last_addrs.as_slice());
        let removed: Vec<SocketAddr> = difference(self.last_addrs.as_slice(), current.as_slice());
        proof {
            lemma_not_in(now@, self.last_addrs@);
            lemma_not_in(self.last_addrs@, current@);
        }
        if added.len() > 0 || removed.len() > 0 {
            self.last_addrs = now;
        }
        (added, removed)
    }

    /// Keeps the addresses that there are now, each once.
    pub fn snapshot(&mut self, current: Vec<SocketAddr>)
        ensures
            final(self).wf(),
            final(self).known() == first_ones(current@),
    {
        self.last_addrs = distinct(current.as_slice());
    }
}

/// Whether the addresses that there are now are others than those before, or stand
/// in another order.
pub fn iface_changed(cached: &[SocketAddr], current: &[SocketAddr]) -> (r: bool)
    ensures
        r == (cached@ != current@),
{
    if cached.len() != current.len() {
        return true;
    }
    let mut i: usize = 0;
    while i < cached.len()
        invariant
            i <= cached@.len(),
            cached@.len() == current@.len(),
            forall|j: int| 0 <= j < i ==> #[trigger] cached@[j] == current@[j],
        decreases cached@.len() - i,
    {
        if cached[i] != current[i] {
            assert(cached@[i as int] != current@[i as int]);
            return true;
        }
        i = i + 1;
    }
    assert(cached@ =~= current@);
    false
}

/// What is not in a list is in the result, and nothing else; and nothing stands twice
/// that does not stand twice in the other list.
proof fn lemma_not_in(a: Seq<SocketAddr>, b: Seq<SocketAddr>)
    ensures
        forall|x: SocketAddr| #[trigger]
            not_in(a, b).contains(x) <==> a.contains(x) && !b.contains(x),
        a.no_duplicates() ==> not_in(a, b).no_duplicates(),
    decreases a.len(),
{
    if a.len() > 0 {
        let front = a.drop_last();
        lemma_not_in(front, b);
        let r = not_in(a, b);
        let s = not_in(front, b);
        assert forall|x: SocketAddr| #[trigger] r.contains(x) <==> a.contains(x) && !b.contains(
            x,
        ) by {
            assert(s.contains(x) <==> front.contains(x) && !b.contains(x));
            if a.contains(x) && !b.contains(x) {
                let k = choose|k: int| 0 <= k < a.len() && a[k] == x;
                if k < front.len() {
                    assert(front[k] == x);
                    let m = choose|m: int| 0 <= m < s.len() && s[m] == x;
                    assert(r[m] == x);
                } else {
                    assert(r[r.len() - 1] == x);
                }
            }
            if r.contains(x) {
                let m = choose|m: int| 0 <= m < r.len() && r[m] == x;
                if m < s.len() {
                    assert(s[m] == x);
                    let k = choose|k: int| 0 <= k < front.len() && front[k] == x;
                    assert(a[k] == x);
                } else {
                    assert(a[a.len() - 1] == x);
                }
            }
        }
        if a.no_duplicates() {
            assert forall|i: int, j: int| 0 <= i < r.len() && 0 <= j < r.len() && i
                != j implies r[i] != r[j] by {
                assert forall|k: int| 0 <= k < s.len() implies s[k] != a.last() by {
                    assert(s.contains(s[k]));
                    let m = choose|m: int| 0 <= m < front.len() && front[m] == s[k];
                    assert(a[m] != a[a.len() - 1]);
                }
                if i < s.len() && j < s.len() {
                    assert(s[i] != s[j]);
                }
            }
        }
    }
}

/// What came are the addresses that are there now and were not before, what went
/// those that were there before and are not now; and nothing comes or goes
/// exactly where the addresses are the same, in whatever order and however often.
pub proof fn law_changes(before: Seq<SocketAddr>, addrs: Seq<SocketAddr>)
    ensures
        ({
            let came = not_in(first_ones(addrs), before);
            let went = not_in(before, addrs);
            &&& came.to_set() == addrs.to_set().difference(before.to_set())
            &&& came.no_duplicates()
            &&& went.to_set() == before.to_set().difference(addrs.to_set())
            &&& before.no_duplicates() ==> went.no_duplicates()
            &&& came.len() == 0 && went.len() == 0 <==> addrs.to_set() == before.to_set()
        }),
{
    let now = first_ones(addrs);
    lemma_first_ones(addrs);
    lemma_not_in(now, before);
    lemma_not_in(before, addrs);
    let came = not_in(now, before);
    let went = not_in(before, addrs);
    assert forall|x: SocketAddr| addrs.contains(x) <==> now.contains(x) by {
        assert(addrs.to_set().contains(x) <==> now.to_set().contains(x));
    }
    assert(came.to_set() =~= now.to_set().difference(before.to_set()));
    assert(went.to_set() =~= before.to_set().difference(now.to_set()));
    if came.len() == 0 && went.len() == 0 {
        assert forall|x: SocketAddr| now.to_set().contains(x) <==> before.to_set().contains(x) by {
            assert(!came.contains(x));
            assert(!went.contains(x));
        }
        assert(now.to_set() =~= before.to_set());
    }
    if now.to_set() == before.to_set() {
        if came.len() > 0 {
            assert(came.contains(came[0]));
            assert(now.to_set().contains(came[0]));
            assert(before.to_set().contains(came[0]));
        }
        if went.len() > 0 {
            assert(went.contains(went[0]));
            assert(before.to_set().contains(went[0]));
            assert(now.to_set().contains(went[0]));
        }
    }
}

/// Nothing came or went where the addresses are those that were kept.
pub proof fn law_check_is_idempotent(addrs: Seq<SocketAddr>)
    ensures
        not_in(first_ones(addrs), first_ones(addrs)).len() == 0,
        not_in(first_ones(addrs), addrs).len() == 0,
{
    lemma_first_ones(addrs);
    law_changes(first_ones(addrs), addrs);
}

/// Of the addresses of the machine's interfaces all can be reached by others but those that
/// start with 127 and ::1; and these are known with the port 0.
pub proof fn law_outside_addresses(ifaces: Seq<SocketAddr>)
    ensures
        forall|i: int|
            #![trigger ifaces[i]]
            0 <= i < ifaces.len() ==> (outside_addrs(ifaces).contains(ifaces[i]@.ip_at(0))
                || match ifaces[i]@ {
                AddrView::V4 { octets, port } => octets[0] == 127,
                AddrView::V6 { octets, port, flowinfo, scope_id } => octets == Seq::new(
                    15,
                    |n: int| 0u8,
                ).push(1),
            }),
        forall|a: AddrView| #[trigger]
            outside_addrs(ifaces).contains(a) ==> a.port() == 0 && match a {
                AddrView::V4 { octets, port } => octets[0] != 127,
                AddrView::V6 { octets, port, flowinfo, scope_id } => octets != Seq::new(
                    15,
                    |n: int| 0u8,
                ).push(1),
            } && exists|i: int|
                0 <= i < ifaces.len() && (#[trigger] ifaces[i])@.ip_at(0) == a,
    decreases ifaces.len(),
{
    if ifaces.len() > 0 {
        let front = ifaces.drop_last();
        let last = ifaces.last();
        let q = outside_addrs(front);
        let r = outside_addrs(ifaces);
        law_outside_addresses(front);
        lemma_loopback(last);
        assert forall|i: int| #![trigger ifaces[i]] 0 <= i < ifaces.len() implies (r.contains(
            ifaces[i]@.ip_at(0),
        ) || match ifaces[i]@ {
            AddrView::V4 { octets, port } => octets[0] == 127,
            AddrView::V6 { octets, port, flowinfo, scope_id } => octets == Seq::new(
                15,
                |n: int| 0u8,
            ).push(1),
        }) by {
            if i < front.len() {
                assert(front[i] == ifaces[i]);
                if q.contains(front[i]@.ip_at(0)) {
                    let j = choose|j: int| 0 <= j < q.len() && q[j] == front[i]@.ip_at(0);
                    assert(r[j] == front[i]@.ip_at(0));
                }
            } else if !is_loopback_view(last@) {
                assert(r[r.len() - 1] == last@.ip_at(0));
            }
        }
        assert forall|a: AddrView| #[trigger] r.contains(a) implies a.port() == 0 && match a {
            AddrView::V4 { octets, port } => octets[0] != 127,
            AddrView::V6 { octets, port, flowinfo, scope_id } => octets != Seq::new(
                15,
                |n: int| 0u8,
            ).push(1),
        } && exists|i: int| 0 <= i < ifaces.len() && (#[trigger] ifaces[i])@.ip_at(0) == a by {
            let j = choose|j: int| 0 <= j < r.len() && r[j] == a;
            if j < q.len() {
                assert(q[j] == a);
                assert(q.contains(a));
                let i = choose|i: int|
                    0 <= i < front.len() && (#[trigger] front[i])@.ip_at(0) == a;
                assert(ifaces[i] == front[i]);
            } else {
                assert(ifaces[ifaces.len() - 1]@.ip_at(0) == a);
            }
        }
    }
}

proof fn lemma_loopback(a: SocketAddr)
    ensures
        is_loopback_view(a@) == match a@ {
            AddrView::V4 { octets, port } => octets[0] == 127,
            AddrView::V6 { octets, port, flowinfo, scope_id } => octets == Seq::new(
                15,
                |n: int| 0u8,
            ).push(1),
        },
{
    if let SocketAddr::V6(x) = a {
        let want = Seq::new(15, |n: int| 0u8).push(1);
        assert(x.ip@.len() == 16);
        if is_loopback_view(a@) {
            assert(x.ip@ =~= want);
        } else if x.ip@ == want {
            assert forall|i: int| 0 <= i < 15 implies #[trigger] x.ip@[i] == 0 by {
                assert(want[i] == 0);
            }
            assert(want[15] == 1);
        }
    }
}

} // verus!
