//! The queries that a node waits for answers to.
use crate::bytes::bytes_equal;
use vstd::prelude::*;

verus! {

/// A set of message ids.
#[derive(Debug)]
pub struct PendingQueries {
    ids: Vec<[u8; 16]>,
}

impl View for PendingQueries {
    type V = Set<Seq<u8>>;

    closed spec fn view(&self) -> Set<Seq<u8>> {
        Set::new(|id: Seq<u8>| exists|i: int| 0 <= i < self.ids@.len() && #[trigger] self.ids@[i]@ == id)
    }
}

impl PendingQueries {
    /// No id stands twice.
    pub closed spec fn wf(&self) -> bool {
        forall|i: int, j: int|
            0 <= i < j < self.ids@.len() ==> (#[trigger] self.ids@[i])@ != (#[trigger] self.ids@[j])@
    }

    /// No query.
    pub fn new() -> (r: Self)
        ensures
            r.wf(),
            r@ == Set::<Seq<u8>>::empty(),
    {
        let r: PendingQueries = PendingQueries { ids: Vec::new() };
        assert(r@ =~= Set::<Seq<u8>>::empty());
        r
    }

    /// The offset of an id.
    fn position(&self, id: &[u8; 16]) -> (r: Option<usize>)
        ensures
            match r {
                Some(i) => i < self.ids@.len() && self.ids@[i as int]@ == id@ && self@.contains(id@),
                None => !self@.contains(id@),
            },
    {
        let mut i: usize = 0;
        while i < self.ids.len()
            invariant
                i <= self.ids@.len(),
                forall|j: int| 0 <= j < i ==> (#[trigger] self.ids@[j])@ != id@,
            decreases self.ids@.len() - i,
        {
            if bytes_equal(self.ids[i].as_slice(), id.as_slice()) {
                assert(self.ids@[i as int]@ == id@);
                return Some(i);
            }
            i = i + 1;
        }
        None
    }

    /// Whether an answer to a query is waited for.
    pub fn contains(&self, id: &[u8; 16]) -> (r: bool)
        ensures
            r == self@.contains(id@),
    {
        match self.position(id) {
            Some(_) => true,
            None => false,
        }
    }

    /// Waits for an answer.
    pub fn insert(&mut self, id: [u8; 16])
        requires
            old(self).wf(),
        ensures
            final(self).wf(),
            final(self)@ == old(self)@.insert(id@),
    {
        match self.position(&id) {
            Some(_) => {
                assert(self@ =~= old(self)@.insert(id@));
            },
            None => {
                let ghost before = self.ids@;
                assert forall|j: int| 0 <= j < before.len() implies (#[trigger] before[j])@
                    != id@ by {
                    if before[j]@ == id@ {
                        assert(self@.contains(id@));
                    }
                }
                self.ids.push(id);
                proof {
                    let after = self.ids@;
                    assert forall|x: Seq<u8>| self@.contains(x) <==> old(self)@.insert(
                        id@,
                    ).contains(x) by {
                        if self@.contains(x) {
                            let i = choose|i: int| 0 <= i < after.len() && #[trigger] after[i]@ == x;
                            if i < before.len() {
                                assert(before[i]@ == x);
                            }
                        }
                        if old(self)@.contains(x) {
                            let i = choose|i: int|
                                0 <= i < before.len() && #[trigger] before[i]@ == x;
                            assert(after[i]@ == x);
                        }
                        if x == id@ {
                            assert(after[before.len() as int]@ == x);
                        }
                    }
                    assert(self@ =~= old(self)@.insert(id@));
                }
            },
        }
    }

    /// Waits no longer, and says whether an answer was waited for.
    pub fn remove(&mut self, id: &[u8; 16]) -> (r: bool)
        requires
            old(self).wf(),
        ensures
            final(self).wf(),
            final(self)@ == old(self)@.remove(id@),
            r == old(self)@.contains(id@),
    {
        match self.position(id) {
            None => {
                assert(self@ =~= old(self)@.remove(id@));
                false
            },
            Some(k) => {
                let ghost before = self.ids@;
                let _ = self.ids.remove(k);
                proof {
                    let after = self.ids@;
                    let p = k as int;
                    assert forall|a: int, b: int| 0 <= a < b < after.len() implies (
                    #[trigger] after[a])@ != (#[trigger] after[b])@ by {
                        let a2 = if a < p {
                            a
                        } else {
                            a + 1
                        };
                        let b2 = if b < p {
                            b
                        } else {
                            b + 1
                        };
                        assert(before[a2]@ != before[b2]@);
                    }
                    assert forall|x: Seq<u8>| self@.contains(x) <==> old(self)@.remove(
                        id@,
                    ).contains(x) by {
                        if self@.contains(x) {
                            let i = choose|i: int| 0 <= i < after.len() && #[trigger] after[i]@ == x;
                            let j = if i < p {
                                i
                            } else {
                                i + 1
                            };
                            assert(before[j]@ == x);
                            if j < p {
                                assert(before[j]@ != before[p]@);
                            } else {
                                assert(before[p]@ != before[j]@);
                            }
                        }
                        if old(self)@.contains(x) && x != id@ {
                            let i = choose|i: int|
                                0 <= i < before.len() && #[trigger] before[i]@ == x;
                            if i < p {
                                assert(after[i]@ == x);
                            } else {
                                assert(after[i - 1]@ == x);
                            }
                        }
                    }
                    assert(self@ =~= old(self)@.remove(id@));
                }
                true
            },
        }
    }
}

} // verus!
