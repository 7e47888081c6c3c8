//! Which modules were used least recently.

use vstd::prelude::*;
use std::collections::HashMap;

verus! {

broadcast use vstd::std_specs::hash::group_hash_axioms;

/// Identity of one compiled module: the ticket it was compiled under.
pub type JitOwnerId = u64;

/// When each owner was last used. The two fields are the two views of one
/// index and are updated together.
pub struct Recency {
    stamps: HashMap<JitOwnerId, u64>,
    /// (stamp, owner), coldest first.
    cold: Vec<(u64, JitOwnerId)>,
}

/// Whether use `a` is colder than use `b`: earlier, or as early and of a smaller
/// owner.
pub open spec fn colder(a: (u64, u64), b: (u64, u64)) -> bool {
    a.0 < b.0 || (a.0 == b.0 && a.1 < b.1)
}

impl View for Recency {
    type V = Map<JitOwnerId, u64>;

    closed spec fn view(&self) -> Map<JitOwnerId, u64> {
        self.stamps@
    }
}

impl Recency {
    /// The uses are in order, and are those of the owners.
    pub closed spec fn wf(&self) -> bool {
        &&& forall|i: int, j: int|
            0 <= i < j < self.cold@.len() ==> colder(#[trigger] self.cold@[i], #[trigger] self.cold@[j])
        &&& forall|i: int|
            0 <= i < self.cold@.len() ==> self.stamps@.contains_key((#[trigger] self.cold@[i]).1)
                && self.stamps@[self.cold@[i].1] == self.cold@[i].0
        &&& forall|o: u64| #[trigger]
            self.stamps@.contains_key(o) ==> self.cold@.contains((self.stamps@[o], o))
    }

    pub fn new() -> (r: Recency)
        ensures
            r.wf(),
            r@ == Map::<u64, u64>::empty(),
    {
        Recency { stamps: HashMap::new(), cold: Vec::new() }
    }

    pub fn clear(&mut self)
        ensures
            final(self).wf(),
            final(self)@ == Map::<u64, u64>::empty(),
    {
        self.stamps.clear();
        self.cold.clear();
    }

    pub fn contains_key(&self, owner: &JitOwnerId) -> (r: bool)
        ensures
            r == self@.contains_key(*owner),
    {
        self.stamps.contains_key(owner)
    }

    pub fn get(&self, owner: &JitOwnerId) -> (stamp: Option<u64>)
        ensures
            stamp == if self@.contains_key(*owner) {
                Some(self@[*owner])
            } else {
                None
            },
    {
        match self.stamps.get(owner) {
            Some(stamp) => Some(*stamp),
            None => None,
        }
    }

    /// The owner whose last use is coldest.
    pub fn coldest(&self) -> (owner: Option<JitOwnerId>)
        requires
            self.wf(),
        ensures
            match owner {
                Some(owner) => {
                    &&& self@.contains_key(owner)
                    &&& forall|o: u64| #[trigger]
                        self@.contains_key(o) && o != owner ==> colder(
                            (self@[owner], owner),
                            (self@[o], o),
                        )
                },
                None => self@ == Map::<u64, u64>::empty(),
            },
    {
        if self.cold.len() == 0 {
            proof {
                assert forall|o: u64| !self@.contains_key(o) by {
                    if self.stamps@.contains_key(o) {
                        assert(self.cold@.contains((self.stamps@[o], o)));
                    }
                }
                assert(self@ =~= Map::<u64, u64>::empty());
            }
            return None;
        }
        let owner: u64 = self.cold[0].1;
        proof {
            assert forall|o: u64| #[trigger] self@.contains_key(o) && o != owner implies colder(
                (self@[owner], owner),
                (self@[o], o),
            ) by {
                assert(self.cold@.contains((self.stamps@[o], o)));
                let j = choose|j: int|
                    0 <= j < self.cold@.len() && self.cold@[j] == (self.stamps@[o], o);
                assert(self.cold@[0].1 == owner);
                assert(self.stamps@[owner] == self.cold@[0].0);
                assert(colder(self.cold@[0], self.cold@[j]));
            }
        }
        Some(owner)
    }

    /// Where a use is, or where it would go.
    fn position(&self, stamp: u64, owner: JitOwnerId) -> (at: usize)
        requires
            self.wf(),
        ensures
            at <= self.cold@.len(),
            forall|i: int| 0 <= i < at ==> colder(#[trigger] self.cold@[i], (stamp, owner)),
            forall|i: int|
                at <= i < self.cold@.len() ==> !colder(#[trigger] self.cold@[i], (stamp, owner)),
    {
        let mut lo: usize = 0;
        let mut hi: usize = self.cold.len();
        while lo < hi
            invariant
                self.wf(),
                lo <= hi <= self.cold@.len(),
                forall|i: int| 0 <= i < lo ==> colder(#[trigger] self.cold@[i], (stamp, owner)),
                forall|i: int|
                    hi <= i < self.cold@.len() ==> !colder(
                        #[trigger] self.cold@[i],
                        (stamp, owner),
                    ),
            decreases hi - lo,
        {
            let mid: usize = lo + (hi - lo) / 2;
            let use_: (u64, u64) = self.cold[mid];
            if use_.0 < stamp || (use_.0 == stamp && use_.1 < owner) {
                assert forall|i: int| 0 <= i < mid + 1 implies colder(
                    #[trigger] self.cold@[i],
                    (stamp, owner),
                ) by {
                    if i < mid {
                        assert(colder(self.cold@[i], self.cold@[mid as int]));
                    }
                }
                lo = mid + 1;
            } else {
                assert forall|i: int| mid <= i < self.cold@.len() implies !colder(
                    #[trigger] self.cold@[i],
                    (stamp, owner),
                ) by {
                    if i > mid {
                        assert(colder(self.cold@[mid as int], self.cold@[i]));
                    }
                }
                hi = mid;
            }
        }
        lo
    }

    /// Forget an owner.
    pub fn remove(&mut self, owner: &JitOwnerId)
        requires
            old(self).wf(),
        ensures
            final(self).wf(),
            final(self)@ == old(self)@.remove(*owner),
    {
        let owner: u64 = *owner;
        match self.get(&owner) {
            None => {
                assert(self@ =~= old(self)@.remove(owner));
            },
            Some(stamp) => {
                let at: usize = self.position(stamp, owner);
                let ghost was = self.cold@;
                proof {
                    let k = choose|k: int| 0 <= k < was.len() && was[k] == (stamp, owner);
                    assert(was.contains((stamp, owner)));
                    assert(!colder(was[k], (stamp, owner)));
                    assert(k >= at);
                    if k > at {
                        assert(colder(was[at as int], was[k]));
                    }
                    assert(was[at as int] == (stamp, owner));
                }
                self.cold.remove(at);
                self.stamps.remove(&owner);
                proof {
                    assert forall|i: int, j: int| 0 <= i < j < self.cold@.len() implies colder(
                        #[trigger] self.cold@[i],
                        #[trigger] self.cold@[j],
                    ) by {
                        let a = if i < at {
                            i
                        } else {
                            i + 1
                        };
                        let b = if j < at {
                            j
                        } else {
                            j + 1
                        };
                        assert(colder(was[a], was[b]));
                    }
                    assert forall|i: int| 0 <= i < self.cold@.len() implies self.stamps@.contains_key(
                        (#[trigger] self.cold@[i]).1,
                    ) && self.stamps@[self.cold@[i].1] == self.cold@[i].0 by {
                        let a = if i < at {
                            i
                        } else {
                            i + 1
                        };
                        assert(self.cold@[i] == was[a]);
                        if was[a].1 == owner {
                            assert(was[a].0 == stamp);
                            if a < at {
                                assert(colder(was[a], was[at as int]));
                            } else {
                                assert(colder(was[at as int], was[a]));
                            }
                        }
                    }
                    assert forall|o: u64| #[trigger]
                        self.stamps@.contains_key(o) implies self.cold@.contains(
                        (self.stamps@[o], o),
                    ) by {
                        assert(old(self).stamps@.contains_key(o));
                        let k = choose|k: int|
                            0 <= k < was.len() && was[k] == (old(self).stamps@[o], o);
                        if k < at {
                            assert(self.cold@[k] == was[k]);
                        } else {
                            assert(self.cold@[k - 1] == was[k]);
                        }
                    }
                }
            },
        }
    }

    /// Note a use of an owner. A use that is not later than the last one known
    /// changes nothing.
    pub fn update(&mut self, owner: JitOwnerId, stamp: u64)
        requires
            old(self).wf(),
        ensures
            final(self).wf(),
            final(self)@ == if old(self)@.contains_key(owner) && old(self)@[owner] >= stamp {
                old(self)@
            } else {
                old(self)@.insert(owner, stamp)
            },
    {
        match self.get(&owner) {
            Some(current) => {
                if current >= stamp {
                    return;
                }
            },
            None => {},
        }
        self.remove(&owner);
        let at: usize = self.position(stamp, owner);
        let ghost was = self.cold@;
        let ghost stamps = self.stamps@;
        self.cold.insert(at, (stamp, owner));
        self.stamps.insert(owner, stamp);
        proof {
            assert forall|i: int, j: int| 0 <= i < j < self.cold@.len() implies colder(
                #[trigger] self.cold@[i],
                #[trigger] self.cold@[j],
            ) by {
                let a = if i < at {
                    i
                } else {
                    i - 1
                };
                let b = if j < at {
                    j
                } else {
                    j - 1
                };
                if i == at {
                    assert(self.cold@[j] == was[b]);
                    assert(!colder(was[b], (stamp, owner)));
                    assert(was[b].1 != owner);
                } else if j == at {
                    assert(self.cold@[i] == was[a]);
                    assert(colder(was[a], (stamp, owner)));
                } else {
                    assert(self.cold@[i] == was[a]);
                    assert(self.cold@[j] == was[b]);
                    assert(colder(was[a], was[b]));
                }
            }
            assert forall|i: int| 0 <= i < self.cold@.len() implies self.stamps@.contains_key(
                (#[trigger] self.cold@[i]).1,
            ) && self.stamps@[self.cold@[i].1] == self.cold@[i].0 by {
                if i != at {
                    let a = if i < at {
                        i
                    } else {
                        i - 1
                    };
                    assert(self.cold@[i] == was[a]);
                    assert(stamps.contains_key(was[a].1));
                }
            }
            assert forall|o: u64| #[trigger]
                self.stamps@.contains_key(o) implies self.cold@.contains(
                (self.stamps@[o], o),
            ) by {
                if o == owner {
                    assert(self.cold@[at as int] == (stamp, owner));
                } else {
                    assert(stamps.contains_key(o));
                    let k = choose|k: int| 0 <= k < was.len() && was[k] == (stamps[o], o);
                    if k < at {
                        assert(self.cold@[k] == was[k]);
                    } else {
                        assert(self.cold@[k + 1] == was[k]);
                    }
                }
            }
            assert(self@ =~= old(self)@.insert(owner, stamp));
        }
    }
}

} // verus!
