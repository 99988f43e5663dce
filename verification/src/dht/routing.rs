//! The routing table: what a node knows of others, by distance.
use crate::bytes;
use crate::endpoint;
use crate::endpoint::{AddrView, SocketAddr, SocketAddrV4, SocketAddrV6};
use crate::peer;
use crate::peer::{number_less, PeerId};
use crate::DHT_BUCKET_COUNT;
use std::collections::VecDeque;
use vstd::prelude::*;

verus! {

/// A node, and when it was last heard of, in milliseconds.
#[derive(Clone, Copy, Debug)]
pub struct BucketEntry {
    pub node_id: PeerId,
    pub address: SocketAddr,
    pub last_seen: u64,
}

/// The offset of the first entry for a node, or the length where there is none.
pub open spec fn index_of_id(s: Seq<BucketEntry>, id: Seq<u8>) -> int
    decreases s.len(),
{
    if s.len() == 0 {
        0
    } else if s[0].node_id@ == id {
        0
    } else {
        1 + index_of_id(s.drop_first(), id)
    }
}

/// Whether there is an entry for a node.
pub open spec fn has_id(s: Seq<BucketEntry>, id: Seq<u8>) -> bool {
    exists|i: int| 0 <= i < s.len() && (#[trigger] s[i]).node_id@ == id
}

/// Whether no two entries are for one node.
pub open spec fn ids_distinct(s: Seq<BucketEntry>) -> bool {
    forall|i: int, j: int|
        0 <= i < j < s.len() ==> (#[trigger] s[i]).node_id@ != (#[trigger] s[j]).node_id@
}

/// A bucket after a node was heard of, and whether the bucket has it now. A
/// known node moves to the tail with what is known of it now; a new one goes to
/// the tail where there is room, and is left out where there is none.
pub open spec fn bucket_insert(s: Seq<BucketEntry>, k: nat, e: BucketEntry) -> (
    Seq<BucketEntry>,
    bool,
) {
    if has_id(s, e.node_id@) {
        (s.remove(index_of_id(s, e.node_id@)).push(e), true)
    } else if s.len() < k {
        (s.push(e), true)
    } else {
        (s, false)
    }
}

/// A bucket after a node was taken out.
pub open spec fn bucket_remove(s: Seq<BucketEntry>, id: Seq<u8>) -> Seq<BucketEntry> {
    if has_id(s, id) {
        s.remove(index_of_id(s, id))
    } else {
        s
    }
}

/// The first entry for a node stands where `index_of_id` says.
pub proof fn lemma_index_of_id(s: Seq<BucketEntry>, id: Seq<u8>)
    ensures
        0 <= index_of_id(s, id) <= s.len(),
        has_id(s, id) <==> index_of_id(s, id) < s.len(),
        index_of_id(s, id) < s.len() ==> s[index_of_id(s, id)].node_id@ == id,
        forall|i: int| 0 <= i < index_of_id(s, id) ==> (#[trigger] s[i]).node_id@ != id,
    decreases s.len(),
{
    if s.len() > 0 {
        let t = s.drop_first();
        lemma_index_of_id(t, id);
        if s[0].node_id@ == id {
            assert(has_id(s, id));
        } else {
            if has_id(s, id) {
                let i = choose|i: int| 0 <= i < s.len() && (#[trigger] s[i]).node_id@ == id;
                assert(t[i - 1].node_id@ == id);
            }
            if has_id(t, id) {
                let i = choose|i: int| 0 <= i < t.len() && (#[trigger] t[i]).node_id@ == id;
                assert(s[i + 1].node_id@ == id);
            }
            assert forall|i: int| 0 <= i < index_of_id(s, id) implies (#[trigger] s[i]).node_id@
                != id by {
                if i > 0 {
                    assert(t[i - 1].node_id@ != id);
                }
            }
        }
    }
}

/// Up to `k` nodes, the one heard of longest ago first.
#[derive(Debug)]
pub struct KBucket {
    entries: VecDeque<BucketEntry>,
    k: usize,
}

impl View for KBucket {
    type V = Seq<BucketEntry>;

    /// The entries, from head to tail.
    closed spec fn view(&self) -> Seq<BucketEntry> {
        self.entries@
    }
}

impl KBucket {
    /// How many nodes the bucket has room for.
    pub closed spec fn capacity(&self) -> nat {
        self.k as nat
    }

    /// An empty bucket with room for `k` nodes.
    pub fn new(k: usize) -> (r: Self)
        ensures
            r@ == Seq::<BucketEntry>::empty(),
            r.capacity() == k,
    {
        KBucket { entries: VecDeque::new(), k }
    }

    /// The offset of the first entry for a node.
    fn position(&self, node_id: &PeerId) -> (r: Option<usize>)
        ensures
            match r {
                Some(i) => i < self@.len() && i == index_of_id(self@, node_id@),
                None => !has_id(self@, node_id@),
            },
    {
        proof {
            lemma_index_of_id(self@, node_id@);
        }
        let mut i: usize = 0;
        while i < self.entries.len()
            invariant
                i <= self@.len(),
                i <= index_of_id(self@, node_id@),
                forall|j: int| 0 <= j < i ==> (#[trigger] self@[j]).node_id@ != node_id@,
                0 <= index_of_id(self@, node_id@) <= self@.len(),
                has_id(self@, node_id@) <==> index_of_id(self@, node_id@) < self@.len(),
                index_of_id(self@, node_id@) < self@.len() ==> self@[index_of_id(
                    self@,
                    node_id@,
                )].node_id@ == node_id@,
                forall|j: int|
                    0 <= j < index_of_id(self@, node_id@) ==> (#[trigger] self@[j]).node_id@
                        != node_id@,
            decreases self@.len() - i,
        {
            proof {
                peer::lemma_peer_id_ext(self@[i as int].node_id, *node_id);
            }
            if self.entries[i].node_id == *node_id {
                return Some(i);
            }
            i = i + 1;
        }
        None
    }

    /// Whether the bucket has a node.
    pub fn contains(&self, node_id: &PeerId) -> (r: bool)
        ensures
            r == has_id(self@, node_id@),
    {
        proof {
            lemma_index_of_id(self@, node_id@);
        }
        match self.position(node_id) {
            Some(_) => true,
            None => false,
        }
    }

    /// Whether there is no room.
    pub fn is_full(&self) -> (r: bool)
        ensures
            r == (self@.len() >= self.capacity()),
    {
        self.entries.len() >= self.k
    }

    /// The entry of the node heard of longest ago.
    pub fn head(&self) -> (r: Option<&BucketEntry>)
        ensures
            match r {
                Some(e) => self@.len() > 0 && *e == self@[0],
                None => self@.len() == 0,
            },
    {
        if self.entries.len() == 0 {
            None
        } else {
            Some(&self.entries[0])
        }
    }

    /// Takes note of a node, and says whether the bucket has it now.
    pub fn insert_or_update(&mut self, entry: BucketEntry) -> (r: bool)
        ensures
            final(self).capacity() == old(self).capacity(),
            (final(self)@, r) == bucket_insert(old(self)@, old(self).capacity(), entry),
    {
        proof {
            lemma_index_of_id(self@, entry.node_id@);
        }
        match self.position(&entry.node_id) {
            Some(pos) => {
                let _ = self.entries.remove(pos);
                self.entries.push_back(entry);
                true
            },
            None => {
                if self.is_full() {
                    false
                } else {
                    self.entries.push_back(entry);
                    true
                }
            },
        }
    }

    /// Takes a node out, and says whether it was there.
    pub fn remove(&mut self, node_id: &PeerId) -> (r: bool)
        ensures
            final(self).capacity() == old(self).capacity(),
            final(self)@ == bucket_remove(old(self)@, node_id@),
            r == has_id(old(self)@, node_id@),
    {
        proof {
            lemma_index_of_id(self@, node_id@);
        }
        match self.position(node_id) {
            Some(pos) => {
                let _ = self.entries.remove(pos);
                true
            },
            None => false,
        }
    }

    /// Puts a node at the tail in place of the one at the head.
    pub fn replace_head(&mut self, entry: BucketEntry)
        ensures
            final(self).capacity() == old(self).capacity(),
            final(self)@ == (if old(self)@.len() == 0 {
                old(self)@
            } else {
                old(self)@.drop_first()
            }).push(entry),
    {
        let _ = self.entries.pop_front();
        self.entries.push_back(entry);
        assert(self@ =~= (if old(self)@.len() == 0 {
            old(self)@
        } else {
            old(self)@.drop_first()
        }).push(entry));
    }

    /// The entries, from head to tail.
    pub fn entries(&self) -> (r: &VecDeque<BucketEntry>)
        ensures
            r@ == self@,
    {
        &self.entries
    }
}

/// The entries of all buckets, bucket by bucket.
pub open spec fn concat(buckets: Seq<Seq<BucketEntry>>) -> Seq<BucketEntry>
    decreases buckets.len(),
{
    if buckets.len() == 0 {
        Seq::empty()
    } else {
        concat(buckets.drop_last()) + buckets.last()
    }
}

/// The distance of an entry's node from a target.
pub open spec fn entry_distance(e: BucketEntry, target: Seq<u8>) -> nat {
    peer::distance_nat(e.node_id@, target)
}

/// Whether `r` lists the `count` entries of `all` that are closest to a target,
/// the closest first, or all of them where there are no more.
pub open spec fn is_closest(
    all: Seq<BucketEntry>,
    target: Seq<u8>,
    count: nat,
    r: Seq<BucketEntry>,
) -> bool {
    &&& r.len() == if all.len() < count {
        all.len()
    } else {
        count
    }
    &&& forall|i: int, j: int|
        0 <= i < j < r.len() ==> entry_distance(#[trigger] r[i], target) < entry_distance(
            #[trigger] r[j],
            target,
        )
    &&& forall|i: int| 0 <= i < r.len() ==> all.contains(#[trigger] r[i])
    &&& forall|x: BucketEntry|
        #![trigger all.contains(x)]
        all.contains(x) ==> r.contains(x) || forall|i: int|
            0 <= i < r.len() ==> entry_distance(#[trigger] r[i], target) < entry_distance(x, target)
}

/// What a node knows of others: one bucket for each number of leading bits that
/// another identifier shares with its own.
#[derive(Debug)]
pub struct RoutingTable {
    local_id: PeerId,
    buckets: Vec<KBucket>,
    k: usize,
}

impl RoutingTable {
    /// The identifier of the node whose table it is.
    pub closed spec fn local(&self) -> Seq<u8> {
        self.local_id@
    }

    /// How many nodes a bucket has room for.
    pub closed spec fn bucket_capacity(&self) -> nat {
        self.k as nat
    }

    /// The entries of each bucket.
    pub closed spec fn bucket_views(&self) -> Seq<Seq<BucketEntry>> {
        self.buckets@.map_values(|b: KBucket| b@)
    }

    /// The entries of all buckets, bucket by bucket.
    pub open spec fn all(&self) -> Seq<BucketEntry> {
        concat(self.bucket_views())
    }

    /// There are 256 buckets. No bucket is overfull, no node is listed twice in
    /// one, and every node is in the bucket that its identifier belongs to.
    pub closed spec fn wf(&self) -> bool {
        &&& self.buckets@.len() == 256
        &&& 256 * self.k <= usize::MAX
        &&& forall|b: int| 0 <= b < 256 ==> (#[trigger] self.buckets@[b]).capacity() == self.k
        &&& table_wf(self.bucket_views(), self.local(), self.bucket_capacity())
    }

    /// The buckets of a table in order are in order.
    pub proof fn lemma_buckets(&self)
        requires
            self.wf(),
        ensures
            table_wf(self.bucket_views(), self.local(), self.bucket_capacity()),
    {
    }

    /// An empty table.
    pub fn new(local_id: PeerId, k: usize) -> (r: Self)
        requires
            256 * k <= usize::MAX,
        ensures
            r.wf(),
            r.local() == local_id@,
            r.bucket_capacity() == k,
            r.bucket_views() == Seq::new(256, |i: int| Seq::<BucketEntry>::empty()),
            r.all() == Seq::<BucketEntry>::empty(),
    {
        let mut buckets: Vec<KBucket> = Vec::with_capacity(DHT_BUCKET_COUNT);
        let mut i: usize = 0;
        while i < DHT_BUCKET_COUNT
            invariant
                i <= 256,
                buckets@.len() == i,
                forall|b: int|
                    0 <= b < i ==> (#[trigger] buckets@[b])@ == Seq::<BucketEntry>::empty()
                        && buckets@[b].capacity() == k,
            decreases 256 - i,
        {
            buckets.push(KBucket::new(k));
            i = i + 1;
        }
        let r: RoutingTable = RoutingTable { local_id, buckets, k };
        proof {
            let empty = Seq::new(256, |i: int| Seq::<BucketEntry>::empty());
            assert(r.bucket_views() =~= empty);
            lemma_concat_empty(empty);
        }
        r
    }

    /// The bucket that a node belongs to.
    pub fn bucket_index(&self, node_id: &PeerId) -> (r: usize)
        ensures
            r == peer::bucket_of(self.local(), node_id@),
            r < 256,
    {
        self.local_id.bucket_index(node_id)
    }

    /// Takes note of a node, and says whether the table has it now. A node whose
    /// bucket is full of others is left out.
    pub fn insert_or_update(&mut self, entry: BucketEntry) -> (r: bool)
        requires
            old(self).wf(),
        ensures
            final(self).wf(),
            final(self).local() == old(self).local(),
            final(self).bucket_capacity() == old(self).bucket_capacity(),
            (final(self).bucket_views(), r) == table_insert(
                old(self).bucket_views(),
                old(self).local(),
                old(self).bucket_capacity(),
                entry,
            ),
    {
        let index: usize = self.bucket_index(&entry.node_id);
        let ghost before = self.bucket_views();
        let ghost i = index as int;
        let r: bool = self.buckets[index].insert_or_update(entry);
        proof {
            assert(before[i] == old(self).buckets@[i]@);
            assert(self.bucket_views() =~= before.update(i, self.buckets@[i]@));
            lemma_table_insert_wf(before, self.local(), self.bucket_capacity(), entry);
        }
        r
    }

    /// Takes a node out.
    pub fn remove_node(&mut self, node_id: &PeerId)
        requires
            old(self).wf(),
        ensures
            final(self).wf(),
            final(self).local() == old(self).local(),
            final(self).bucket_capacity() == old(self).bucket_capacity(),
            final(self).bucket_views() == table_remove(
                old(self).bucket_views(),
                old(self).local(),
                node_id@,
            ),
    {
        let index: usize = self.bucket_index(node_id);
        let ghost before = self.bucket_views();
        let ghost i = index as int;
        let _ = self.buckets[index].remove(node_id);
        proof {
            assert(before[i] == old(self).buckets@[i]@);
            assert(self.bucket_views() =~= before.update(i, self.buckets@[i]@));
            lemma_table_remove_wf(before, self.local(), self.bucket_capacity(), node_id@);
        }
    }

    /// The `count` nodes closest to a target, the closest first.
    pub fn closest_nodes(&self, target: &PeerId, count: usize) -> (r: Vec<BucketEntry>)
        requires
            self.wf(),
        ensures
            is_closest(self.all(), target@, count as nat, r@),
    {
        let all: Vec<BucketEntry> = self.all_nodes();
        proof {
            lemma_all_distinct(self.bucket_views(), self.local(), self.bucket_capacity());
        }
        let mut r: Vec<BucketEntry> = Vec::new();
        let mut i: usize = 0;
        assert(is_closest(all@.subrange(0, 0), target@, count as nat, r@));
        while i < all.len()
            invariant
                i <= all@.len(),
                ids_distinct(all@),
                is_closest(all@.subrange(0, i as int), target@, count as nat, r@),
            decreases all@.len() - i,
        {
            let entry: BucketEntry = all[i];
            proof {
                let seen = all@.subrange(0, i as int);
                assert(all@.subrange(0, i + 1) =~= seen.push(entry));
                assert forall|x: BucketEntry| seen.contains(x) implies x.node_id@
                    != entry.node_id@ by {
                    let j = choose|j: int| 0 <= j < seen.len() && seen[j] == x;
                    assert(all@[j].node_id@ != all@[i as int].node_id@);
                }
                lemma_keep_closest(seen, target@, count as nat, r@, entry);
            }
            keep_closest(&mut r, target, count, entry);
            i = i + 1;
        }
        assert(all@.subrange(0, i as int) =~= all@);
        r
    }

    /// All nodes, bucket by bucket.
    pub fn all_nodes(&self) -> (r: Vec<BucketEntry>)
        ensures
            r@ == self.all(),
    {
        let mut r: Vec<BucketEntry> = Vec::new();
        let ghost views = self.bucket_views();
        let mut b: usize = 0;
        assert(views.subrange(0, 0) =~= Seq::empty());
        while b < self.buckets.len()
            invariant
                b <= self.buckets@.len(),
                views == self.bucket_views(),
                r@ == concat(views.subrange(0, b as int)),
            decreases self.buckets@.len() - b,
        {
            let entries: &VecDeque<BucketEntry> = self.buckets[b].entries();
            let ghost start = r@;
            let mut i: usize = 0;
            while i < entries.len()
                invariant
                    i <= entries@.len(),
                    r@ == start + entries@.subrange(0, i as int),
                decreases entries@.len() - i,
            {
                r.push(entries[i]);
                i = i + 1;
            }
            proof {
                assert(entries@.subrange(0, i as int) =~= entries@);
                assert(views.subrange(0, b + 1).drop_last() =~= views.subrange(0, b as int));
                assert(views.subrange(0, b + 1).last() == entries@);
            }
            b = b + 1;
        }
        assert(views.subrange(0, b as int) =~= views);
        r
    }

    /// How many nodes the table has.
    pub fn size(&self) -> (n: usize)
        requires
            self.wf(),
        ensures
            n == self.all().len(),
            n <= 256 * self.bucket_capacity(),
    {
        let ghost views = self.bucket_views();
        let mut n: usize = 0;
        let mut b: usize = 0;
        assert(views.subrange(0, 0) =~= Seq::empty());
        while b < self.buckets.len()
            invariant
                self.wf(),
                b <= self.buckets@.len(),
                views == self.bucket_views(),
                n == concat(views.subrange(0, b as int)).len(),
                n <= b * self.bucket_capacity(),
            decreases self.buckets@.len() - b,
        {
            let len: usize = self.buckets[b].entries().len();
            proof {
                let k = self.bucket_capacity() as int;
                assert(views.subrange(0, b + 1).drop_last() =~= views.subrange(0, b as int));
                assert(views.subrange(0, b + 1).last() == self.buckets@[b as int]@);
                assert(views[b as int].len() <= k);
                assert((b + 1) * k == b * k + k) by (nonlinear_arith);
                assert((b + 1) * k <= 256 * k) by (nonlinear_arith)
                    requires
                        b + 1 <= 256,
                        k >= 0,
                ;
            }
            n = n + len;
            b = b + 1;
        }
        assert(views.subrange(0, b as int) =~= views);
        n
    }
}

/// Whether the buckets of a table are in order, for a node and a capacity.
pub open spec fn table_wf(buckets: Seq<Seq<BucketEntry>>, local: Seq<u8>, k: nat) -> bool {
    &&& buckets.len() == 256
    &&& local.len() == 32
    &&& forall|b: int| 0 <= b < 256 ==> (#[trigger] buckets[b]).len() <= k
    &&& forall|b: int| 0 <= b < 256 ==> ids_distinct(#[trigger] buckets[b])
    &&& forall|b: int, i: int|
        0 <= b < 256 && 0 <= i < buckets[b].len() ==> peer::bucket_of(
            local,
            (#[trigger] buckets[b][i]).node_id@,
        ) == b
}

/// The buckets after a node was heard of, and whether the table has it now.
pub open spec fn table_insert(
    buckets: Seq<Seq<BucketEntry>>,
    local: Seq<u8>,
    k: nat,
    e: BucketEntry,
) -> (Seq<Seq<BucketEntry>>, bool) {
    let b = peer::bucket_of(local, e.node_id@) as int;
    let (s, r) = bucket_insert(buckets[b], k, e);
    (buckets.update(b, s), r)
}

/// The buckets after a node was taken out.
pub open spec fn table_remove(
    buckets: Seq<Seq<BucketEntry>>,
    local: Seq<u8>,
    id: Seq<u8>,
) -> Seq<Seq<BucketEntry>> {
    let b = peer::bucket_of(local, id) as int;
    buckets.update(b, bucket_remove(buckets[b], id))
}

/// Taking note of a node keeps the table in order.
pub proof fn lemma_table_insert_wf(
    buckets: Seq<Seq<BucketEntry>>,
    local: Seq<u8>,
    k: nat,
    e: BucketEntry,
)
    requires
        table_wf(buckets, local, k),
    ensures
        table_wf(table_insert(buckets, local, k, e).0, local, k),
{
    let b = peer::bucket_of(local, e.node_id@) as int;
    let s = buckets[b];
    let t = bucket_insert(s, k, e).0;
    let after = table_insert(buckets, local, k, e).0;
    lemma_index_of_id(s, e.node_id@);
    lemma_bucket_insert(s, k, e);
    assert forall|c: int, i: int| 0 <= c < 256 && 0 <= i < after[c].len() implies peer::bucket_of(
        local,
        (#[trigger] after[c][i]).node_id@,
    ) == c by {
        if c == b {
            let x = t[i];
            if x != e {
                assert(s.contains(x));
                let j = choose|j: int| 0 <= j < s.len() && s[j] == x;
                assert(peer::bucket_of(local, buckets[b][j].node_id@) == b);
            }
        } else {
            assert(after[c] == buckets[c]);
            assert(peer::bucket_of(local, buckets[c][i].node_id@) == c);
        }
    }
}

/// What a bucket has after a node was heard of: what it had, but for the node
/// itself, and the new entry at the tail.
proof fn lemma_bucket_insert(s: Seq<BucketEntry>, k: nat, e: BucketEntry)
    requires
        ids_distinct(s),
        s.len() <= k,
    ensures
        ({
            let (t, r) = bucket_insert(s, k, e);
            &&& ids_distinct(t)
            &&& t.len() <= k
            &&& forall|i: int|
                0 <= i < t.len() && #[trigger] t[i] != e ==> s.contains(t[i])
            &&& r ==> t.len() > 0 && t.last() == e
            &&& !r ==> t == s && !has_id(s, e.node_id@) && s.len() == k
        }),
{
    let id = e.node_id@;
    let (t, r) = bucket_insert(s, k, e);
    lemma_index_of_id(s, id);
    if has_id(s, id) {
        let p = index_of_id(s, id);
        let u = s.remove(p);
        assert forall|i: int| 0 <= i < u.len() implies (#[trigger] u[i]).node_id@ != id
            && s.contains(u[i]) by {
            if i < p {
                assert(u[i] == s[i]);
            } else {
                assert(u[i] == s[i + 1]);
                assert(s[p].node_id@ != s[i + 1].node_id@);
            }
        }
        assert forall|i: int, j: int| 0 <= i < j < t.len() implies (#[trigger] t[i]).node_id@ != (
        #[trigger] t[j]).node_id@ by {
            assert(u[i].node_id@ != id);
            if j < u.len() {
                let i2 = if i < p {
                    i
                } else {
                    i + 1
                };
                let j2 = if j < p {
                    j
                } else {
                    j + 1
                };
                assert(s[i2].node_id@ != s[j2].node_id@);
            }
        }
    } else if s.len() < k {
        assert forall|i: int, j: int| 0 <= i < j < t.len() implies (#[trigger] t[i]).node_id@ != (
        #[trigger] t[j]).node_id@ by {
            if j < s.len() {
                assert(s[i].node_id@ != s[j].node_id@);
            } else {
                assert(s[i].node_id@ != id);
            }
        }
    }
}

/// Taking a node out keeps the table in order.
pub proof fn lemma_table_remove_wf(
    buckets: Seq<Seq<BucketEntry>>,
    local: Seq<u8>,
    k: nat,
    id: Seq<u8>,
)
    requires
        table_wf(buckets, local, k),
    ensures
        table_wf(table_remove(buckets, local, id), local, k),
{
    let b = peer::bucket_of(local, id) as int;
    let s = buckets[b];
    let t = bucket_remove(s, id);
    let after = table_remove(buckets, local, id);
    lemma_index_of_id(s, id);
    let p = index_of_id(s, id);
    assert forall|i: int, j: int| 0 <= i < j < t.len() implies (#[trigger] t[i]).node_id@ != (
    #[trigger] t[j]).node_id@ by {
        if has_id(s, id) {
            let i2 = if i < p {
                i
            } else {
                i + 1
            };
            let j2 = if j < p {
                j
            } else {
                j + 1
            };
            assert(s[i2].node_id@ != s[j2].node_id@);
        } else {
            assert(s[i].node_id@ != s[j].node_id@);
        }
    }
    assert forall|c: int, i: int| 0 <= c < 256 && 0 <= i < after[c].len() implies peer::bucket_of(
        local,
        (#[trigger] after[c][i]).node_id@,
    ) == c by {
        if c == b && has_id(s, id) {
            let i2 = if i < p {
                i
            } else {
                i + 1
            };
            assert(peer::bucket_of(local, buckets[b][i2].node_id@) == b);
        } else {
            assert(peer::bucket_of(local, buckets[c][i].node_id@) == c);
        }
    }
}

/// Empty buckets have no entries.
proof fn lemma_concat_empty(buckets: Seq<Seq<BucketEntry>>)
    requires
        forall|b: int| 0 <= b < buckets.len() ==> (#[trigger] buckets[b]).len() == 0,
    ensures
        concat(buckets) == Seq::<BucketEntry>::empty(),
    decreases buckets.len(),
{
    if buckets.len() > 0 {
        let front = buckets.drop_last();
        assert forall|b: int| 0 <= b < front.len() implies (#[trigger] front[b]).len() == 0 by {
            assert(front[b] == buckets[b]);
        }
        lemma_concat_empty(front);
        assert(buckets.last().len() == 0);
        assert(concat(buckets) =~= Seq::<BucketEntry>::empty());
    }
}

/// Every entry of the concatenation comes from a bucket, and every entry of a
/// bucket is in the concatenation.
pub proof fn lemma_concat_contains(buckets: Seq<Seq<BucketEntry>>, x: BucketEntry)
    ensures
        concat(buckets).contains(x) <==> exists|b: int|
            0 <= b < buckets.len() && (#[trigger] buckets[b]).contains(x),
    decreases buckets.len(),
{
    if buckets.len() > 0 {
        let front = buckets.drop_last();
        let last = buckets.last();
        let all = concat(buckets);
        lemma_concat_contains(front, x);
        if all.contains(x) {
            let i = choose|i: int| 0 <= i < all.len() && all[i] == x;
            if i < concat(front).len() {
                assert(concat(front)[i] == x);
                let b = choose|b: int| 0 <= b < front.len() && (#[trigger] front[b]).contains(x);
                assert(buckets[b].contains(x));
            } else {
                assert(last[i - concat(front).len()] == x);
                assert(buckets[buckets.len() - 1].contains(x));
            }
        }
        if exists|b: int| 0 <= b < buckets.len() && (#[trigger] buckets[b]).contains(x) {
            let b = choose|b: int| 0 <= b < buckets.len() && (#[trigger] buckets[b]).contains(x);
            if b < front.len() {
                assert(front[b].contains(x));
                let i = choose|i: int| 0 <= i < concat(front).len() && concat(front)[i] == x;
                assert(all[i] == x);
            } else {
                let i = choose|i: int| 0 <= i < last.len() && last[i] == x;
                assert(all[concat(front).len() + i] == x);
            }
        }
    }
}

/// The entries of the first buckets of a table in order are for different nodes.
proof fn lemma_prefix_distinct(
    buckets: Seq<Seq<BucketEntry>>,
    local: Seq<u8>,
    k: nat,
    n: int,
)
    requires
        table_wf(buckets, local, k),
        0 <= n <= 256,
    ensures
        ids_distinct(concat(buckets.subrange(0, n))),
        forall|i: int|
            0 <= i < concat(buckets.subrange(0, n)).len() ==> peer::bucket_of(
                local,
                (#[trigger] concat(buckets.subrange(0, n))[i]).node_id@,
            ) < n,
    decreases n,
{
    if n > 0 {
        let head = buckets.subrange(0, n - 1);
        let all = concat(buckets.subrange(0, n));
        lemma_prefix_distinct(buckets, local, k, n - 1);
        assert(buckets.subrange(0, n).drop_last() =~= head);
        assert(buckets.subrange(0, n).last() == buckets[n - 1]);
        let m = concat(head).len() as int;
        assert forall|i: int| 0 <= i < all.len() implies peer::bucket_of(
            local,
            (#[trigger] all[i]).node_id@,
        ) < n by {
            if i < m {
                assert(all[i] == concat(head)[i]);
            } else {
                assert(all[i] == buckets[n - 1][i - m]);
            }
        }
        assert forall|i: int, j: int| 0 <= i < j < all.len() implies (#[trigger] all[i]).node_id@
            != (#[trigger] all[j]).node_id@ by {
            if j < m {
                assert(concat(head)[i].node_id@ != concat(head)[j].node_id@);
            } else if i < m {
                assert(peer::bucket_of(local, concat(head)[i].node_id@) < n - 1);
                assert(peer::bucket_of(local, buckets[n - 1][j - m].node_id@) == n - 1);
            } else {
                assert(buckets[n - 1][i - m].node_id@ != buckets[n - 1][j - m].node_id@);
            }
        }
    } else {
        assert(buckets.subrange(0, 0) =~= Seq::empty());
    }
}

/// All entries of a table in order are for different nodes.
pub proof fn lemma_all_distinct(buckets: Seq<Seq<BucketEntry>>, local: Seq<u8>, k: nat)
    requires
        table_wf(buckets, local, k),
    ensures
        ids_distinct(concat(buckets)),
{
    lemma_prefix_distinct(buckets, local, k, 256);
    assert(buckets.subrange(0, 256) =~= buckets);
}

/// Where an entry belongs in a list ordered by distance: before the first that
/// is farther.
pub open spec fn insert_position(r: Seq<BucketEntry>, target: Seq<u8>, e: BucketEntry) -> int
    decreases r.len(),
{
    if r.len() == 0 {
        0
    } else if entry_distance(e, target) < entry_distance(r[0], target) {
        0
    } else {
        1 + insert_position(r.drop_first(), target, e)
    }
}

/// A list ordered by distance with one more entry, cut off after `count`.
pub open spec fn kept_closest(
    r: Seq<BucketEntry>,
    target: Seq<u8>,
    count: nat,
    e: BucketEntry,
) -> Seq<BucketEntry> {
    let t = r.insert(insert_position(r, target, e), e);
    if t.len() > count {
        t.drop_last()
    } else {
        t
    }
}

proof fn lemma_insert_position(r: Seq<BucketEntry>, target: Seq<u8>, e: BucketEntry)
    ensures
        0 <= insert_position(r, target, e) <= r.len(),
        forall|i: int|
            0 <= i < insert_position(r, target, e) ==> entry_distance(#[trigger] r[i], target)
                <= entry_distance(e, target),
        insert_position(r, target, e) < r.len() ==> entry_distance(e, target) < entry_distance(
            r[insert_position(r, target, e)],
            target,
        ),
    decreases r.len(),
{
    if r.len() > 0 && !(entry_distance(e, target) < entry_distance(r[0], target)) {
        let t = r.drop_first();
        lemma_insert_position(t, target, e);
        assert forall|i: int| 0 <= i < insert_position(r, target, e) implies entry_distance(
            #[trigger] r[i],
            target,
        ) <= entry_distance(e, target) by {
            if i > 0 {
                assert(t[i - 1] == r[i]);
            }
        }
    }
}

/// Puts an entry where it belongs and cuts the list off after `count`.
fn keep_closest(r: &mut Vec<BucketEntry>, target: &PeerId, count: usize, entry: BucketEntry)
    requires
        old(r)@.len() <= count,
    ensures
        final(r)@ == kept_closest(old(r)@, target@, count as nat, entry),
{
    let d: [u8; 32] = entry.node_id.distance(target);
    let mut i: usize = 0;
    proof {
        assert(r@.skip(0) =~= r@);
        lemma_insert_position(r@, target@, entry);
    }
    while i < r.len() && !number_less(&d, &r[i].node_id.distance(target))
        invariant
            i <= r@.len(),
            r@ == old(r)@,
            d@ == peer::xor_bytes(entry.node_id@, target@),
            insert_position(r@, target@, entry) == i + insert_position(
                r@.skip(i as int),
                target@,
                entry,
            ),
        decreases r@.len() - i,
    {
        assert(r@.skip(i as int).drop_first() =~= r@.skip(i + 1));
        assert(r@.skip(i as int)[0] == r@[i as int]);
        i = i + 1;
    }
    proof {
        if i < r@.len() {
            assert(r@.skip(i as int)[0] == r@[i as int]);
        }
        assert(i == insert_position(r@, target@, entry));
    }
    r.insert(i, entry);
    if r.len() > count {
        let _ = r.pop();
    }
    assert(r@ =~= kept_closest(old(r)@, target@, count as nat, entry));
}

/// Keeping the closest of a longer list.
proof fn lemma_keep_closest(
    all: Seq<BucketEntry>,
    target: Seq<u8>,
    count: nat,
    r: Seq<BucketEntry>,
    e: BucketEntry,
)
    requires
        target.len() == 32,
        is_closest(all, target, count, r),
        forall|x: BucketEntry| all.contains(x) ==> x.node_id@ != e.node_id@,
    ensures
        r.len() <= count,
        is_closest(all.push(e), target, count, kept_closest(r, target, count, e)),
{
    let more = all.push(e);
    let p = insert_position(r, target, e);
    let t = r.insert(p, e);
    let out = kept_closest(r, target, count, e);
    let de = entry_distance(e, target);
    lemma_insert_position(r, target, e);
    assert forall|i: int| 0 <= i < r.len() implies entry_distance(#[trigger] r[i], target)
        != de by {
        assert(all.contains(r[i]));
        if entry_distance(r[i], target) == de {
            peer::law_distance_unidirectional(target, r[i].node_id@, e.node_id@);
        }
    }
    assert forall|i: int| p <= i < r.len() implies de < entry_distance(#[trigger] r[i], target) by {
        if p < i {
            assert(entry_distance(r[p], target) < entry_distance(r[i], target));
        }
    }
    assert forall|i: int, j: int| 0 <= i < j < t.len() implies entry_distance(
        #[trigger] t[i],
        target,
    ) < entry_distance(#[trigger] t[j], target) by {
        let i2 = if i < p {
            i
        } else {
            i - 1
        };
        let j2 = if j < p {
            j
        } else {
            j - 1
        };
        if i != p && j != p {
            assert(t[i] == r[i2] && t[j] == r[j2]);
        } else if i == p {
            assert(t[j] == r[j2]);
        } else {
            assert(t[i] == r[i2]);
        }
    }
    assert forall|i: int| 0 <= i < t.len() implies more.contains(#[trigger] t[i]) by {
        if i == p {
            assert(more[all.len() as int] == e);
        } else {
            let i2 = if i < p {
                i
            } else {
                i - 1
            };
            assert(t[i] == r[i2]);
            assert(all.contains(r[i2]));
            let a = choose|a: int| 0 <= a < all.len() && all[a] == r[i2];
            assert(more[a] == r[i2]);
        }
    }
    assert forall|i: int| 0 <= i < out.len() implies more.contains(#[trigger] out[i]) by {
        assert(out[i] == t[i]);
    }
    assert forall|x: BucketEntry| #![trigger more.contains(x)] more.contains(x) implies out.contains(
        x,
    ) || forall|i: int|
        0 <= i < out.len() ==> entry_distance(#[trigger] out[i], target) < entry_distance(
            x,
            target,
        ) by {
        let a = choose|a: int| 0 <= a < more.len() && more[a] == x;
        if a < all.len() {
            assert(all[a] == x);
            assert(all.contains(x));
        }
        let q = if x == e {
            p
        } else if r.contains(x) {
            let i = choose|i: int| 0 <= i < r.len() && r[i] == x;
            if i < p {
                i
            } else {
                i + 1
            }
        } else {
            -1int
        };
        if q >= 0 {
            assert(t[q] == x);
            if q < out.len() {
                assert(out[q] == x);
            } else {
                assert forall|i: int| 0 <= i < out.len() implies entry_distance(
                    #[trigger] out[i],
                    target,
                ) < entry_distance(x, target) by {
                    assert(out[i] == t[i]);
                }
            }
        } else {
            assert(forall|i: int|
                0 <= i < r.len() ==> entry_distance(#[trigger] r[i], target) < entry_distance(
                    x,
                    target,
                ));
            assert forall|i: int| 0 <= i < out.len() implies entry_distance(
                #[trigger] out[i],
                target,
            ) < entry_distance(x, target) by {
                assert(out[i] == t[i]);
                if i < p {
                    assert(t[i] == r[i]);
                } else if i > p {
                    assert(t[i] == r[i - 1]);
                } else {
                    if p < r.len() {
                        assert(de < entry_distance(r[p], target));
                    } else {
                        assert(r.len() < count);
                        assert(r.len() == all.len());
                        lemma_all_listed(all, target, count, r, x);
                    }
                }
            }
        }
    }
}

/// Where the list of the closest has room left, every entry is in it.
pub proof fn lemma_all_listed(
    all: Seq<BucketEntry>,
    target: Seq<u8>,
    count: nat,
    r: Seq<BucketEntry>,
    x: BucketEntry,
)
    requires
        is_closest(all, target, count, r),
        r.len() == all.len(),
        all.contains(x),
    ensures
        r.contains(x),
{
    if !r.contains(x) {
        let a = all.to_set();
        let b = r.to_set();
        assert forall|y: BucketEntry| b.contains(y) implies a.contains(y) by {
            let i = choose|i: int| 0 <= i < r.len() && r[i] == y;
            assert(all.contains(r[i]));
        }
        assert(r.no_duplicates());
        r.unique_seq_to_set();
        all.lemma_cardinality_of_set();
        assert(a.contains(x) && !b.contains(x));
        assert(b.subset_of(a.remove(x)));
        vstd::set_lib::lemma_len_subset(b, a.remove(x));
        assert(false);
    }
}

/// There is only one list of the closest nodes.
pub proof fn law_closest_unique(
    all: Seq<BucketEntry>,
    target: Seq<u8>,
    count: nat,
    r: Seq<BucketEntry>,
    s: Seq<BucketEntry>,
)
    requires
        is_closest(all, target, count, r),
        is_closest(all, target, count, s),
    ensures
        r == s,
{
    lemma_closest_agree(all, target, count, r, s, r.len() as int);
    assert(r =~= s);
}

/// Two lists of the closest nodes agree on their first entries.
proof fn lemma_closest_agree(
    all: Seq<BucketEntry>,
    target: Seq<u8>,
    count: nat,
    r: Seq<BucketEntry>,
    s: Seq<BucketEntry>,
    n: int,
)
    requires
        is_closest(all, target, count, r),
        is_closest(all, target, count, s),
        0 <= n <= r.len(),
    ensures
        forall|i: int| 0 <= i < n ==> r[i] == s[i],
    decreases n,
{
    if n > 0 {
        lemma_closest_agree(all, target, count, r, s, n - 1);
        let m = n - 1;
        let x = r[m];
        let y = s[m];
        assert(all.contains(x) && all.contains(y));
        if x != y {
            if s.contains(x) {
                let i = choose|i: int| 0 <= i < s.len() && s[i] == x;
                if i < m {
                    assert(r[i] == s[i]);
                    assert(entry_distance(r[i], target) < entry_distance(r[m], target));
                }
                assert(entry_distance(s[m], target) < entry_distance(s[i], target));
            } else {
                assert(entry_distance(s[m], target) < entry_distance(x, target));
            }
            if r.contains(y) {
                let i = choose|i: int| 0 <= i < r.len() && r[i] == y;
                if i < m {
                    assert(r[i] == s[i]);
                    assert(entry_distance(s[i], target) < entry_distance(s[m], target));
                }
                assert(entry_distance(r[m], target) < entry_distance(r[i], target));
            } else {
                assert(entry_distance(r[m], target) < entry_distance(y, target));
            }
            assert(false);
        }
    }
}

/// A node that the table took note of is in it with what is known of it now. One
/// that it left out met a bucket full of others, and the table is as it was.
pub proof fn law_insert(buckets: Seq<Seq<BucketEntry>>, local: Seq<u8>, k: nat, e: BucketEntry)
    requires
        table_wf(buckets, local, k),
    ensures
        ({
            let (after, r) = table_insert(buckets, local, k, e);
            let b = peer::bucket_of(local, e.node_id@) as int;
            &&& table_wf(after, local, k)
            &&& r ==> concat(after).contains(e)
            &&& !r ==> after == buckets && buckets[b].len() == k && !has_id(buckets[b], e.node_id@)
            &&& r <==> has_id(buckets[b], e.node_id@) || buckets[b].len() < k
        }),
{
    let (after, r) = table_insert(buckets, local, k, e);
    let b = peer::bucket_of(local, e.node_id@) as int;
    lemma_table_insert_wf(buckets, local, k, e);
    lemma_bucket_insert(buckets[b], k, e);
    if r {
        assert(after[b].last() == e);
        assert(after[b].contains(e));
        lemma_concat_contains(after, e);
    } else {
        assert(after =~= buckets);
    }
}

/// Taking note of one node drops no other.
pub proof fn law_insert_keeps_others(
    buckets: Seq<Seq<BucketEntry>>,
    local: Seq<u8>,
    k: nat,
    e: BucketEntry,
    x: BucketEntry,
)
    requires
        table_wf(buckets, local, k),
        concat(buckets).contains(x),
        x.node_id@ != e.node_id@,
    ensures
        concat(table_insert(buckets, local, k, e).0).contains(x),
{
    let after = table_insert(buckets, local, k, e).0;
    let b = peer::bucket_of(local, e.node_id@) as int;
    lemma_concat_contains(buckets, x);
    lemma_concat_contains(after, x);
    let c = choose|c: int| 0 <= c < buckets.len() && (#[trigger] buckets[c]).contains(x);
    if c == b {
        let s = buckets[b];
        let i = choose|i: int| 0 <= i < s.len() && s[i] == x;
        lemma_index_of_id(s, e.node_id@);
        let p = index_of_id(s, e.node_id@);
        if has_id(s, e.node_id@) {
            if i < p {
                assert(after[b][i] == x);
            } else {
                assert(after[b][i - 1] == x);
            }
        } else if s.len() < k {
            assert(after[b][i] == x);
        }
        assert(after[b].contains(x));
    } else {
        assert(after[c].contains(x));
    }
}

/// A node that was taken out is in no bucket, and every other node is where it
/// was.
pub proof fn law_remove(
    buckets: Seq<Seq<BucketEntry>>,
    local: Seq<u8>,
    k: nat,
    id: Seq<u8>,
    x: BucketEntry,
)
    requires
        table_wf(buckets, local, k),
    ensures
        table_wf(table_remove(buckets, local, id), local, k),
        concat(table_remove(buckets, local, id)).contains(x) <==> concat(buckets).contains(x)
            && x.node_id@ != id,
{
    let after = table_remove(buckets, local, id);
    let b = peer::bucket_of(local, id) as int;
    let s = buckets[b];
    let p = index_of_id(s, id);
    lemma_table_remove_wf(buckets, local, k, id);
    lemma_index_of_id(s, id);
    lemma_concat_contains(buckets, x);
    lemma_concat_contains(after, x);
    if concat(after).contains(x) {
        let c = choose|c: int| 0 <= c < after.len() && (#[trigger] after[c]).contains(x);
        let i = choose|i: int| 0 <= i < after[c].len() && after[c][i] == x;
        assert(peer::bucket_of(local, after[c][i].node_id@) == c);
        if c == b && has_id(s, id) {
            let j = if i < p {
                i
            } else {
                i + 1
            };
            assert(s[j] == x);
            assert(s[j].node_id@ != s[p].node_id@);
        } else if c == b {
            assert(s[i] == x);
        }
        assert(buckets[c].contains(x));
    }
    if concat(buckets).contains(x) && x.node_id@ != id {
        let c = choose|c: int| 0 <= c < buckets.len() && (#[trigger] buckets[c]).contains(x);
        if c == b && has_id(s, id) {
            let i = choose|i: int| 0 <= i < s.len() && s[i] == x;
            if i < p {
                assert(after[b][i] == x);
            } else {
                assert(after[b][i - 1] == x);
            }
        }
        assert(after[c].contains(x));
    }
}

/// The `count` entries closest to a target, the closest first.
pub open spec fn closest(all: Seq<BucketEntry>, target: Seq<u8>, count: nat) -> Seq<BucketEntry> {
    choose|r: Seq<BucketEntry>| is_closest(all, target, count, r)
}

/// What lists the closest nodes is the list of the closest nodes.
pub proof fn lemma_closest(
    all: Seq<BucketEntry>,
    target: Seq<u8>,
    count: nat,
    r: Seq<BucketEntry>,
)
    requires
        is_closest(all, target, count, r),
    ensures
        closest(all, target, count) == r,
{
    law_closest_unique(all, target, count, closest(all, target, count), r);
}

/// The entry with a given identifier, address and moment.
pub open spec fn entry_of(id: Seq<u8>, addr: AddrView, last_seen: u64) -> BucketEntry {
    choose|e: BucketEntry| e.node_id@ == id && e.address@ == addr && e.last_seen == last_seen
}

/// An entry is the one with its identifier, address and moment.
pub proof fn lemma_entry_of(e: BucketEntry)
    ensures
        entry_of(e.node_id@, e.address@, e.last_seen) == e,
{
    let c = entry_of(e.node_id@, e.address@, e.last_seen);
    assert(c.node_id@ == e.node_id@ && c.address@ == e.address@ && c.last_seen == e.last_seen);
    peer::lemma_peer_id_ext(c.node_id, e.node_id);
    endpoint::lemma_addr_ext(c.address, e.address);
}

/// The entries of nodes other than two.
pub open spec fn without(s: Seq<BucketEntry>, a: Seq<u8>, b: Seq<u8>) -> Seq<BucketEntry>
    decreases s.len(),
{
    if s.len() == 0 {
        Seq::empty()
    } else if s.last().node_id@ != a && s.last().node_id@ != b {
        without(s.drop_last(), a, b).push(s.last())
    } else {
        without(s.drop_last(), a, b)
    }
}

/// The entries of nodes other than two.
pub fn nodes_without(s: &[BucketEntry], a: &PeerId, b: &PeerId) -> (r: Vec<BucketEntry>)
    ensures
        r@ == without(s@, a@, b@),
{
    let mut r: Vec<BucketEntry> = Vec::new();
    let mut i: usize = 0;
    while i < s.len()
        invariant
            i <= s@.len(),
            r@ == without(s@.subrange(0, i as int), a@, b@),
        decreases s@.len() - i,
    {
        let e: BucketEntry = s[i];
        proof {
            assert(s@.subrange(0, i + 1).drop_last() =~= s@.subrange(0, i as int));
            peer::lemma_peer_id_ext(e.node_id, *a);
            peer::lemma_peer_id_ext(e.node_id, *b);
        }
        if e.node_id != *a && e.node_id != *b {
            r.push(e);
        }
        i = i + 1;
    }
    assert(s@.subrange(0, i as int) =~= s@);
    r
}

/// The entry with a given identifier, address and moment has them.
pub proof fn lemma_entry_parts(id: Seq<u8>, addr: AddrView, last_seen: u64)
    requires
        id.len() == 32,
        match addr {
            AddrView::V4 { octets, port } => octets.len() == 4,
            AddrView::V6 { octets, port, flowinfo, scope_id } => octets.len() == 16,
        },
    ensures
        entry_of(id, addr, last_seen).node_id@ == id,
        entry_of(id, addr, last_seen).address@ == addr,
        entry_of(id, addr, last_seen).last_seen == last_seen,
{
    let node_id = PeerId(bytes::lemma_array_of(id));
    let address = match addr {
        AddrView::V4 { octets, port } => SocketAddr::V4(
            SocketAddrV4 { ip: bytes::lemma_array_of(octets), port },
        ),
        AddrView::V6 { octets, port, flowinfo, scope_id } => SocketAddr::V6(
            SocketAddrV6 { ip: bytes::lemma_array_of(octets), port, flowinfo, scope_id },
        ),
    };
    let e = BucketEntry { node_id, address, last_seen };
    assert(e.node_id@ == id && e.address@ == addr && e.last_seen == last_seen);
}

/// Among different nodes there are always some that are closest to a target.
pub proof fn lemma_closest_there(all: Seq<BucketEntry>, target: Seq<u8>, count: nat)
    requires
        target.len() == 32,
        ids_distinct(all),
    ensures
        is_closest(all, target, count, closest(all, target, count)),
    decreases all.len(),
{
    if all.len() == 0 {
        assert(is_closest(all, target, count, Seq::<BucketEntry>::empty()));
    } else {
        let front = all.drop_last();
        let e = all.last();
        assert forall|i: int, j: int| 0 <= i < j < front.len() implies (
        #[trigger] front[i]).node_id@ != (#[trigger] front[j]).node_id@ by {
            assert(all[i].node_id@ != all[j].node_id@);
        }
        lemma_closest_there(front, target, count);
        assert forall|x: BucketEntry| front.contains(x) implies x.node_id@ != e.node_id@ by {
            let i = choose|i: int| 0 <= i < front.len() && front[i] == x;
            assert(all[i].node_id@ != all[all.len() - 1].node_id@);
        }
        lemma_keep_closest(front, target, count, closest(front, target, count), e);
        assert(front.push(e) =~= all);
    }
}

/// A node that is heard of stands last in its bucket after that, and the others stay in
/// their order, so that the first of a bucket is the one that was heard of longest ago. A
/// bucket that is full of others stays as it is.
pub proof fn law_bucket_order(s: Seq<BucketEntry>, k: nat, e: BucketEntry)
    requires
        ids_distinct(s),
    ensures
        ({
            let (t, r) = bucket_insert(s, k, e);
            &&& r ==> t.len() > 0 && t.last() == e && bucket_remove(s, e.node_id@) == t.drop_last()
            &&& !r ==> t == s && s.len() >= k
            &&& forall|i: int, j: int|
                0 <= i < j < s.len() && (#[trigger] s[i]).node_id@ != e.node_id@ && (
                #[trigger] s[j]).node_id@ != e.node_id@ ==> exists|a: int, b: int|
                    0 <= a < b < t.len() && (#[trigger] t[a]) == s[i] && (#[trigger] t[b]) == s[j]
        }),
{
    let id = e.node_id@;
    let (t, r) = bucket_insert(s, k, e);
    lemma_index_of_id(s, id);
    let p = index_of_id(s, id);
    if r {
        assert(t.drop_last() =~= bucket_remove(s, id));
    }
    assert forall|i: int, j: int|
        0 <= i < j < s.len() && (#[trigger] s[i]).node_id@ != id && (#[trigger] s[j]).node_id@
            != id implies exists|a: int, b: int|
        0 <= a < b < t.len() && (#[trigger] t[a]) == s[i] && (#[trigger] t[b]) == s[j] by {
        let a = if has_id(s, id) && i > p {
            i - 1
        } else {
            i
        };
        let b = if has_id(s, id) && j > p {
            j - 1
        } else {
            j
        };
        assert(t[a] == s[i] && t[b] == s[j]);
    }
}

} // verus!
