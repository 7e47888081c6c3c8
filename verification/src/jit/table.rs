//! The slots of the host's function table that hold compiled code.

use vstd::prelude::*;
use std::collections::HashSet;

verus! {

broadcast use vstd::std_specs::hash::group_hash_axioms;

/// A slot that the host is to release after the current entry returns.
#[derive(Clone, Copy, Debug, PartialEq, Eq, Structural)]
pub struct Retirement {
    pub slot: i32,
    /// Whether the slot was evicted by policy.
    pub evicted: bool,
}

/// The slots that are in use, and what the host has to be told of them.
pub struct SlotTable {
    live: HashSet<i32>,
    peak: u64,
    retired: u64,
    retirements: Vec<Retirement>,
}

/// The state of a [`SlotTable`].
#[verifier::ext_equal]
pub struct TableView {
    pub live: Set<i32>,
    /// Most slots that were in use at once.
    pub peak: u64,
    /// How many slots were released, modulo the width of the counter.
    pub retired: u64,
    pub retirements: Seq<Retirement>,
}

/// One more, modulo the width of the counter.
pub open spec fn bumped(n: u64) -> u64 {
    if n == u64::MAX {
        0
    } else {
        (n + 1) as u64
    }
}

/// One more, modulo the width of the counter.
pub fn bump(n: u64) -> (r: u64)
    ensures
        r == bumped(n),
{
    n.wrapping_add(1)
}

impl View for SlotTable {
    type V = TableView;

    closed spec fn view(&self) -> TableView {
        TableView {
            live: self.live@,
            peak: self.peak,
            retired: self.retired,
            retirements: self.retirements@,
        }
    }
}

impl TableView {
    /// The table with a slot in use.
    pub open spec fn registered(self, idx: i32) -> TableView {
        if idx < 0 {
            self
        } else {
            let live = self.live.insert(idx);
            TableView {
                live,
                peak: if live.len() > self.peak {
                    live.len() as u64
                } else {
                    self.peak
                },
                ..self
            }
        }
    }

    /// The table with a slot released, if it was in use.
    pub open spec fn retired_slot(self, idx: i32, evicted: bool) -> TableView {
        if idx < 0 || !self.live.contains(idx) {
            self
        } else {
            TableView {
                live: self.live.remove(idx),
                retired: bumped(self.retired),
                retirements: self.retirements.push(Retirement { slot: idx, evicted }),
                ..self
            }
        }
    }

    /// The table after each of `n` slots from `base` on was taken over from the
    /// host and released at once. What is no slot number is passed over.
    pub open spec fn adopted(self, base: int, n: int) -> TableView
        decreases n,
    {
        if n <= 0 {
            self
        } else {
            let idx = base + n - 1;
            let before = self.adopted(base, n - 1);
            if 0 <= idx <= i32::MAX {
                before.registered(idx as i32).retired_slot(idx as i32, false)
            } else {
                before
            }
        }
    }
}

impl SlotTable {

    pub fn new() -> (t: SlotTable)
        ensures
            t@ == (TableView {
                live: Set::empty(),
                peak: 0,
                retired: 0,
                retirements: Seq::empty(),
            }),
    {
        let t = SlotTable { live: HashSet::new(), peak: 0, retired: 0, retirements: Vec::new() };
        assert(t@.retirements =~= Seq::empty());
        t
    }

    /// How many slots are in use.
    pub fn live_count(&self) -> (n: usize)
        ensures
            n == self@.live.len(),
    {
        self.live.len()
    }

    /// (most slots in use at once, slots released).
    pub fn counts(&self) -> (c: (u64, u64))
        ensures
            c == (self@.peak, self@.retired),
    {
        (self.peak, self.retired)
    }

    /// Note that a slot is in use.
    pub fn register(&mut self, idx: i32)
        ensures
            final(self)@ == old(self)@.registered(idx),
    {
        if idx < 0 {
            return;
        }
        self.live.insert(idx);
        let n: u64 = self.live.len() as u64;
        if n > self.peak {
            self.peak = n;
        }
        assert(self@ =~= old(self)@.registered(idx));
    }

    /// Release a slot, if it is in use.
    pub fn retire(&mut self, idx: i32, evicted: bool)
        ensures
            final(self)@ == old(self)@.retired_slot(idx, evicted),
    {
        if idx < 0 {
            return;
        }
        if self.live.remove(&idx) {
            self.retirements.push(Retirement { slot: idx, evicted });
            self.retired = bump(self.retired);
        }
        assert(self@ =~= old(self)@.retired_slot(idx, evicted));
    }

    /// Take over and release the slots of a result that nothing can use, so
    /// that they cannot leak.
    pub fn adopt(&mut self, base: i32, slot_count: u32)
        ensures
            final(self)@ == old(self)@.adopted(base as int, slot_count as int),
    {
        let mut offset: u32 = 0;
        while offset < slot_count
            invariant
                offset <= slot_count,
                self@ == old(self)@.adopted(base as int, offset as int),
            decreases slot_count - offset,
        {
            let idx: i64 = base as i64 + offset as i64;
            if 0 <= idx && idx <= i32::MAX as i64 {
                self.register(idx as i32);
                self.retire(idx as i32, false);
            }
            offset = offset + 1;
        }
    }

    /// What the host has to be told since this was last asked.
    pub fn take_retirements(&mut self) -> (r: Vec<Retirement>)
        ensures
            r@ == old(self)@.retirements,
            final(self)@ == (TableView { retirements: Seq::empty(), ..old(self)@ }),
    {
        let mut r: Vec<Retirement> = Vec::new();
        core::mem::swap(&mut r, &mut self.retirements);
        assert(self@.retirements =~= Seq::empty());
        r
    }
}

} // verus!
