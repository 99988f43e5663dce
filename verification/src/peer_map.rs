//! A map from peers to values.
use crate::peer;
use crate::peer::PeerId;
use vstd::prelude::*;

verus! {

/// A map from peers to values. The entries stand in the order in which the peers
/// came, and no peer stands twice.
#[derive(Debug)]
pub struct PeerMap<V> {
    entries: Vec<(PeerId, V)>,
}

/// The offset of the entry for a peer, or the length where there is none.
pub open spec fn key_index<V>(s: Seq<(PeerId, V)>, id: Seq<u8>) -> int
    decreases s.len(),
{
    if s.len() == 0 {
        0
    } else if s[0].0@ == id {
        0
    } else {
        1 + key_index(s.drop_first(), id)
    }
}

/// Whether no peer stands twice.
pub open spec fn keys_distinct<V>(s: Seq<(PeerId, V)>) -> bool {
    forall|i: int, j: int| 0 <= i < j < s.len() ==> (#[trigger] s[i]).0@ != (#[trigger] s[j]).0@
}

/// The map that a list of entries stands for.
pub open spec fn entries_map<V>(s: Seq<(PeerId, V)>) -> Map<Seq<u8>, V> {
    Map::new(
        |id: Seq<u8>| exists|i: int| 0 <= i < s.len() && (#[trigger] s[i]).0@ == id,
        |id: Seq<u8>| s[key_index(s, id)].1,
    )
}

proof fn lemma_key_index<V>(s: Seq<(PeerId, V)>, id: Seq<u8>)
    ensures
        0 <= key_index(s, id) <= s.len(),
        key_index(s, id) < s.len() ==> s[key_index(s, id)].0@ == id,
        forall|i: int| 0 <= i < key_index(s, id) ==> (#[trigger] s[i]).0@ != id,
        entries_map(s).dom().contains(id) <==> key_index(s, id) < s.len(),
    decreases s.len(),
{
    if s.len() > 0 && s[0].0@ != id {
        let t = s.drop_first();
        lemma_key_index(t, id);
        assert forall|i: int| 0 <= i < key_index(s, id) implies (#[trigger] s[i]).0@ != id by {
            if i > 0 {
                assert(t[i - 1].0@ != id);
            }
        }
        if exists|i: int| 0 <= i < s.len() && (#[trigger] s[i]).0@ == id {
            let i = choose|i: int| 0 <= i < s.len() && (#[trigger] s[i]).0@ == id;
            assert(t[i - 1].0@ == id);
        }
    } else if s.len() > 0 {
        assert(s[0].0@ == id);
    }
}

/// With distinct keys, the entry at any offset is the one for its key.
proof fn lemma_entry_at<V>(s: Seq<(PeerId, V)>, i: int)
    requires
        keys_distinct(s),
        0 <= i < s.len(),
    ensures
        key_index(s, s[i].0@) == i,
        entries_map(s).dom().contains(s[i].0@),
        entries_map(s)[s[i].0@] == s[i].1,
{
    let id = s[i].0@;
    lemma_key_index(s, id);
    let k = key_index(s, id);
    assert(k < s.len()) by {
        assert(s[i].0@ == id);
    }
    if k < i {
        assert(s[k].0@ != s[i].0@);
    }
    if i < k {
        assert(s[i].0@ != s[k].0@);
    }
}

impl<V> View for PeerMap<V> {
    type V = Map<Seq<u8>, V>;

    /// The map, keyed by the bytes of the identifiers.
    closed spec fn view(&self) -> Map<Seq<u8>, V> {
        entries_map(self.entries@)
    }
}

impl<V> PeerMap<V> {
    /// No peer stands twice.
    pub closed spec fn wf(&self) -> bool {
        keys_distinct(self.entries@)
    }

    /// The peers, in the order in which they came.
    pub closed spec fn keys(&self) -> Seq<Seq<u8>> {
        self.entries@.map_values(|e: (PeerId, V)| e.0@)
    }

    /// The empty map.
    pub fn new() -> (r: Self)
        ensures
            r.wf(),
            r@ == Map::<Seq<u8>, V>::empty(),
            r.keys() == Seq::<Seq<u8>>::empty(),
    {
        let r: PeerMap<V> = PeerMap { entries: Vec::new() };
        assert(r@ =~= Map::<Seq<u8>, V>::empty());
        assert(r.keys() =~= Seq::<Seq<u8>>::empty());
        r
    }

    /// The offset of the entry for a peer.
    fn position(&self, id: &PeerId) -> (r: Option<usize>)
        ensures
            match r {
                Some(i) => i < self.entries@.len() && i == key_index(self.entries@, id@)
                    && self@.dom().contains(id@),
                None => !self@.dom().contains(id@),
            },
    {
        proof {
            lemma_key_index(self.entries@, id@);
        }
        let mut i: usize = 0;
        while i < self.entries.len()
            invariant
                i <= self.entries@.len(),
                i <= key_index(self.entries@, id@) <= self.entries@.len(),
                key_index(self.entries@, id@) < self.entries@.len() ==> self.entries@[key_index(
                    self.entries@,
                    id@,
                )].0@ == id@,
                forall|j: int|
                    0 <= j < key_index(self.entries@, id@) ==> (#[trigger] self.entries@[j]).0@
                        != id@,
                self@.dom().contains(id@) <==> key_index(self.entries@, id@) < self.entries@.len(),
            decreases self.entries@.len() - i,
        {
            proof {
                peer::lemma_peer_id_ext(self.entries@[i as int].0, *id);
            }
            if self.entries[i].0 == *id {
                return Some(i);
            }
            i = i + 1;
        }
        None
    }

    /// How many peers there are.
    pub fn len(&self) -> (n: usize)
        ensures
            n == self.keys().len(),
    {
        self.entries.len()
    }

    /// Whether there is a value for a peer.
    pub fn contains_key(&self, id: &PeerId) -> (r: bool)
        ensures
            r == self@.dom().contains(id@),
    {
        match self.position(id) {
            Some(_) => true,
            None => false,
        }
    }

    /// The value for a peer.
    pub fn get(&self, id: &PeerId) -> (r: Option<&V>)
        ensures
            match r {
                Some(v) => self@.dom().contains(id@) && *v == self@[id@],
                None => !self@.dom().contains(id@),
            },
    {
        match self.position(id) {
            Some(i) => Some(&self.entries[i].1),
            None => None,
        }
    }

    /// The peer at an offset.
    pub fn key_at(&self, i: usize) -> (id: PeerId)
        requires
            i < self.keys().len(),
        ensures
            id@ == self.keys()[i as int],
    {
        self.entries[i].0
    }

    /// The value of the peer at an offset.
    pub fn value_at(&self, i: usize) -> (v: &V)
        requires
            self.wf(),
            i < self.keys().len(),
        ensures
            self@.dom().contains(self.keys()[i as int]),
            *v == self@[self.keys()[i as int]],
    {
        proof {
            lemma_entry_at(self.entries@, i as int);
        }
        &self.entries[i].1
    }

    /// Sets the value for a peer and gives the one that it had.
    pub fn insert(&mut self, id: PeerId, value: V) -> (r: Option<V>)
        requires
            old(self).wf(),
        ensures
            final(self).wf(),
            final(self)@ == old(self)@.insert(id@, value),
            final(self).keys() == if old(self)@.dom().contains(id@) {
                old(self).keys()
            } else {
                old(self).keys().push(id@)
            },
            match r {
                Some(v) => old(self)@.dom().contains(id@) && v == old(self)@[id@],
                None => !old(self)@.dom().contains(id@),
            },
    {
        let ghost before = self.entries@;
        proof {
            lemma_key_index(before, id@);
        }
        match self.position(&id) {
            Some(i) => {
                let mut slot: V = value;
                std::mem::swap(&mut self.entries[i].1, &mut slot);
                proof {
                    let after = self.entries@;
                    let k = i as int;
                    assert(after =~= before.update(k, (before[k].0, value)));
                    lemma_same_keys(before, after);
                    assert(keys_distinct(after)) by {
                        assert forall|a: int, b: int| 0 <= a < b < after.len() implies (
                        #[trigger] after[a]).0@ != (#[trigger] after[b]).0@ by {
                            assert(before[a].0@ != before[b].0@);
                        }
                    }
                    assert forall|x: Seq<u8>| entries_map(after).dom().contains(
                        x,
                    ) implies #[trigger] entries_map(after)[x] == entries_map(before).insert(
                        id@,
                        value,
                    )[x] by {
                        lemma_key_index(after, x);
                        lemma_key_index(before, x);
                        lemma_same_index(before, after, x);
                    }
                    assert(self@ =~= old(self)@.insert(id@, value));
                    assert(self.keys() =~= old(self).keys());
                }
                Some(slot)
            },
            None => {
                self.entries.push((id, value));
                proof {
                    let after = self.entries@;
                    assert(keys_distinct(after)) by {
                        assert forall|a: int, b: int| 0 <= a < b < after.len() implies (
                        #[trigger] after[a]).0@ != (#[trigger] after[b]).0@ by {
                            assert(before[a].0@ != id@);
                            if b < before.len() {
                                assert(before[a].0@ != before[b].0@);
                            }
                        }
                    }
                    lemma_map_push(before, id, value);
                    assert(self@ =~= old(self)@.insert(id@, value));
                    assert(self.keys() =~= old(self).keys().push(id@));
                }
                None
            },
        }
    }

    /// Takes a peer out and gives the value that it had.
    pub fn remove(&mut self, id: &PeerId) -> (r: Option<V>)
        requires
            old(self).wf(),
        ensures
            final(self).wf(),
            final(self)@ == old(self)@.remove(id@),
            match r {
                Some(v) => old(self)@.dom().contains(id@) && v == old(self)@[id@],
                None => !old(self)@.dom().contains(id@),
            },
            r is None ==> final(self).keys() == old(self).keys(),
    {
        let ghost before = self.entries@;
        match self.position(id) {
            Some(i) => {
                let (_, v): (PeerId, V) = self.entries.remove(i);
                proof {
                    lemma_map_remove(before, i as int);
                    lemma_key_index(before, id@);
                    assert(self@ =~= old(self)@.remove(id@));
                }
                Some(v)
            },
            None => {
                assert(self@ =~= old(self)@.remove(id@));
                None
            },
        }
    }

    /// Takes the peer at an offset out.
    pub fn remove_at(&mut self, i: usize)
        requires
            old(self).wf(),
            i < old(self).keys().len(),
        ensures
            final(self).wf(),
            final(self)@ == old(self)@.remove(old(self).keys()[i as int]),
            final(self).keys() == old(self).keys().remove(i as int),
    {
        let ghost before = self.entries@;
        let _ = self.entries.remove(i);
        proof {
            lemma_map_remove(before, i as int);
            assert(self@ =~= old(self)@.remove(old(self).keys()[i as int]));
            assert(self.keys() =~= old(self).keys().remove(i as int));
        }
    }

    /// The peers of the map are its keys, each at one offset.
    pub proof fn lemma_keys(&self)
        requires
            self.wf(),
        ensures
            self.keys().no_duplicates(),
            forall|id: Seq<u8>| self.keys().contains(id) <==> #[trigger] self@.dom().contains(id),
    {
        assert forall|a: int, b: int|
            0 <= a < self.keys().len() && 0 <= b < self.keys().len() && a != b implies self.keys()[a]
            != self.keys()[b] by {
            if a < b {
                assert(self.entries@[a].0@ != self.entries@[b].0@);
            } else {
                assert(self.entries@[b].0@ != self.entries@[a].0@);
            }
        }
        assert forall|id: Seq<u8>| self.keys().contains(id) <==> #[trigger] self@.dom().contains(
            id,
        ) by {
            if self.keys().contains(id) {
                let i = choose|i: int| 0 <= i < self.keys().len() && self.keys()[i] == id;
                assert(self.entries@[i].0@ == id);
            }
            if self@.dom().contains(id) {
                let i = choose|i: int|
                    0 <= i < self.entries@.len() && (#[trigger] self.entries@[i]).0@ == id;
                assert(self.keys()[i] == id);
            }
        }
    }
}

/// Lists with the same keys at the same offsets stand for maps with the same
/// keys.
proof fn lemma_same_keys<V>(s: Seq<(PeerId, V)>, t: Seq<(PeerId, V)>)
    requires
        s.len() == t.len(),
        forall|i: int| 0 <= i < s.len() ==> (#[trigger] s[i]).0 == t[i].0,
    ensures
        entries_map(s).dom() =~= entries_map(t).dom(),
{
    assert forall|id: Seq<u8>| entries_map(s).dom().contains(id) <==> entries_map(
        t,
    ).dom().contains(id) by {
        if exists|i: int| 0 <= i < s.len() && (#[trigger] s[i]).0@ == id {
            let i = choose|i: int| 0 <= i < s.len() && (#[trigger] s[i]).0@ == id;
            assert(t[i].0@ == id);
        }
        if exists|i: int| 0 <= i < t.len() && (#[trigger] t[i]).0@ == id {
            let i = choose|i: int| 0 <= i < t.len() && (#[trigger] t[i]).0@ == id;
            assert(s[i].0@ == id);
        }
    }
}

/// Lists with the same keys at the same offsets have the entry for a key at the
/// same offset.
proof fn lemma_same_index<V>(s: Seq<(PeerId, V)>, t: Seq<(PeerId, V)>, id: Seq<u8>)
    requires
        s.len() == t.len(),
        forall|i: int| 0 <= i < s.len() ==> (#[trigger] s[i]).0 == t[i].0,
    ensures
        key_index(s, id) == key_index(t, id),
    decreases s.len(),
{
    if s.len() > 0 {
        assert(s[0].0 == t[0].0);
        let a = s.drop_first();
        let b = t.drop_first();
        assert forall|i: int| 0 <= i < a.len() implies (#[trigger] a[i]).0 == b[i].0 by {
            assert(s[i + 1].0 == t[i + 1].0);
        }
        lemma_same_index(a, b, id);
    }
}

/// The map after an entry for a new key was appended.
proof fn lemma_map_push<V>(s: Seq<(PeerId, V)>, id: PeerId, value: V)
    requires
        keys_distinct(s.push((id, value))),
    ensures
        entries_map(s.push((id, value))) =~= entries_map(s).insert(id@, value),
{
    let t = s.push((id, value));
    assert forall|x: Seq<u8>| #![auto] entries_map(t).dom().contains(x) <==> entries_map(s).insert(
        id@,
        value,
    ).dom().contains(x) by {
        if entries_map(t).dom().contains(x) {
            let i = choose|i: int| 0 <= i < t.len() && (#[trigger] t[i]).0@ == x;
            if i < s.len() {
                assert(s[i].0@ == x);
            }
        }
        if entries_map(s).dom().contains(x) {
            let i = choose|i: int| 0 <= i < s.len() && (#[trigger] s[i]).0@ == x;
            assert(t[i].0@ == x);
        }
        if x == id@ {
            assert(t[s.len() as int].0@ == x);
        }
    }
    assert forall|x: Seq<u8>| entries_map(t).dom().contains(x) implies #[trigger] entries_map(t)[x]
        == entries_map(s).insert(id@, value)[x] by {
        let i = choose|i: int| 0 <= i < t.len() && (#[trigger] t[i]).0@ == x;
        lemma_entry_at(t, i);
        if i < s.len() {
            assert(t[i].0@ != t[s.len() as int].0@);
            assert(keys_distinct(s)) by {
                assert forall|a: int, b: int| 0 <= a < b < s.len() implies (#[trigger] s[a]).0@ != (
                #[trigger] s[b]).0@ by {
                    assert(t[a].0@ != t[b].0@);
                }
            }
            lemma_entry_at(s, i);
            assert(s[i] == t[i]);
        } else {
            assert(t[i] == (id, value));
        }
    }
}

/// The map after the entry at an offset was taken out.
proof fn lemma_map_remove<V>(s: Seq<(PeerId, V)>, k: int)
    requires
        keys_distinct(s),
        0 <= k < s.len(),
    ensures
        keys_distinct(s.remove(k)),
        entries_map(s.remove(k)) =~= entries_map(s).remove(s[k].0@),
{
    let t = s.remove(k);
    let id = s[k].0@;
    assert forall|a: int, b: int| 0 <= a < b < t.len() implies (#[trigger] t[a]).0@ != (
    #[trigger] t[b]).0@ by {
        let a2 = if a < k {
            a
        } else {
            a + 1
        };
        let b2 = if b < k {
            b
        } else {
            b + 1
        };
        assert(s[a2].0@ != s[b2].0@);
    }
    assert forall|x: Seq<u8>| #![auto] entries_map(t).dom().contains(x) <==> entries_map(s).remove(
        id,
    ).dom().contains(x) by {
        if entries_map(t).dom().contains(x) {
            let i = choose|i: int| 0 <= i < t.len() && (#[trigger] t[i]).0@ == x;
            let j = if i < k {
                i
            } else {
                i + 1
            };
            assert(s[j].0@ == x);
            if j < k {
                assert(s[j].0@ != s[k].0@);
            } else {
                assert(s[k].0@ != s[j].0@);
            }
        }
        if entries_map(s).dom().contains(x) && x != id {
            let i = choose|i: int| 0 <= i < s.len() && (#[trigger] s[i]).0@ == x;
            if i < k {
                assert(t[i].0@ == x);
            } else {
                assert(t[i - 1].0@ == x);
            }
        }
    }
    assert forall|x: Seq<u8>| entries_map(t).dom().contains(x) implies #[trigger] entries_map(t)[x]
        == entries_map(s).remove(id)[x] by {
        let i = choose|i: int| 0 <= i < t.len() && (#[trigger] t[i]).0@ == x;
        lemma_entry_at(t, i);
        let j = if i < k {
            i
        } else {
            i + 1
        };
        lemma_entry_at(s, j);
        assert(s[j] == t[i]);
    }
}

} // verus!
