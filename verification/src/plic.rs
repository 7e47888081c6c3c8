//! SiFive/QEMU-style platform-level interrupt controller.

use vstd::prelude::*;

verus! {

/// Interrupt sources, of which source 0 stands for "no interrupt". One u32
/// bitmask is enough.
pub const PLIC_SOURCES: usize = 32;

/// Context 0 is hart 0's machine-level external interrupt, context 1 its
/// supervisor-level one.
pub const PLIC_CONTEXTS: usize = 2;

/// Bit `i` of `word`.
pub open spec fn source_bit(word: u32, i: int) -> bool {
    word & (1u32 << (i as u32)) != 0
}

proof fn lemma_source_bits(word: u32, i: u32)
    requires
        i < 32,
    ensures
        forall|j: int|
            0 <= j < 32 ==> #[trigger] source_bit(word | (1u32 << i), j) == (j == i || source_bit(
                word,
                j,
            )),
        forall|j: int|
            0 <= j < 32 ==> #[trigger] source_bit(word & !(1u32 << i), j) == (j != i
                && source_bit(word, j)),
{
    assert forall|j: int| 0 <= j < 32 implies #[trigger] source_bit(word | (1u32 << i), j) == (j
        == i || source_bit(word, j)) by {
        let k = j as u32;
        assert((word | (1u32 << i)) & (1u32 << k) != 0 <==> (k == i || word & (1u32 << k) != 0))
            by (bit_vector)
            requires
                i < 32,
                k < 32,
        ;
    }
    assert forall|j: int| 0 <= j < 32 implies #[trigger] source_bit(word & !(1u32 << i), j) == (j
        != i && source_bit(word, j)) by {
        let k = j as u32;
        assert((word & !(1u32 << i)) & (1u32 << k) != 0 <==> (k != i && word & (1u32 << k) != 0))
            by (bit_vector)
            requires
                i < 32,
                k < 32,
        ;
    }
}

/// `word` with bit `i` set.
pub fn with_source(word: u32, i: u32) -> (r: u32)
    requires
        i < 32,
    ensures
        forall|j: int|
            0 <= j < 32 ==> #[trigger] source_bit(r, j) == (j == i || source_bit(word, j)),
{
    proof {
        lemma_source_bits(word, i);
    }
    word | (1u32 << i)
}

/// `word` with bit `i` clear.
pub fn without_source(word: u32, i: u32) -> (r: u32)
    requires
        i < 32,
    ensures
        forall|j: int|
            0 <= j < 32 ==> #[trigger] source_bit(r, j) == (j != i && source_bit(word, j)),
{
    proof {
        lemma_source_bits(word, i);
    }
    word & !(1u32 << i)
}

/// No source is set in an empty mask.
pub proof fn lemma_no_source()
    ensures
        forall|j: int| 0 <= j < 32 ==> !(#[trigger] source_bit(0, j)),
{
    assert forall|j: int| 0 <= j < 32 implies !(#[trigger] source_bit(0, j)) by {
        let k = j as u32;
        assert(0u32 & (1u32 << k) == 0) by (bit_vector);
    }
}

/// Full SiFive/QEMU-style PLIC.
pub struct Plic {
    priority: [u32; 32],
    pending: u32,  // level-driven by device lines (recomputed)
    enable: [u32; 2],
    threshold: [u32; 2],
    claimed: u32,  // in-service (claimed, awaiting complete)
}

/// The state of a [`Plic`]: per source its priority, whether its line is up and
/// whether it is in service, and per context its enables and threshold.
#[verifier::ext_equal]
pub struct PlicView {
    pub priority: Seq<u32>,
    pub pending: Seq<bool>,
    pub claimed: Seq<bool>,
    pub enable: Seq<Seq<bool>>,
    pub threshold: Seq<u32>,
}

/// The sources in a mask.
pub open spec fn sources(word: u32) -> Seq<bool> {
    Seq::new(32, |i: int| source_bit(word, i))
}

impl View for Plic {
    type V = PlicView;

    closed spec fn view(&self) -> PlicView {
        PlicView {
            priority: self.priority@,
            pending: sources(self.pending),
            claimed: sources(self.claimed),
            enable: Seq::new(2, |c: int| sources(self.enable@[c])),
            threshold: self.threshold@,
        }
    }
}

impl PlicView {
    /// The controller out of reset: every priority, enable and threshold is zero.
    pub open spec fn reset() -> PlicView {
        PlicView {
            priority: Seq::new(32, |i: int| 0u32),
            pending: Seq::new(32, |i: int| false),
            claimed: Seq::new(32, |i: int| false),
            enable: Seq::new(2, |c: int| Seq::new(32, |i: int| false)),
            threshold: Seq::new(2, |c: int| 0u32),
        }
    }

    /// Two contexts over 32 sources, of which source 0 is never enabled.
    pub open spec fn wf(self) -> bool {
        &&& self.priority.len() == PLIC_SOURCES
        &&& self.pending.len() == PLIC_SOURCES
        &&& self.claimed.len() == PLIC_SOURCES
        &&& self.enable.len() == PLIC_CONTEXTS
        &&& self.threshold.len() == PLIC_CONTEXTS
        &&& forall|c: int| 0 <= c < 2 ==> (#[trigger] self.enable[c]).len() == PLIC_SOURCES
        &&& forall|c: int| 0 <= c < 2 ==> !(#[trigger] self.enable[c])[0]
    }

    /// Whether source `i` may interrupt context `ctx`: its line is up, it is
    /// enabled, it is not in service, and its priority is over the threshold.
    pub open spec fn claimable(self, ctx: int, i: int) -> bool {
        &&& 0 <= i < PLIC_SOURCES
        &&& self.pending[i]
        &&& self.enable[ctx][i]
        &&& !self.claimed[i]
        &&& self.priority[i] > self.threshold[ctx]
    }

    /// Whether `id` is the best claimable source of a context: the one of
    /// highest priority, the highest-numbered among equals, or 0 if none is
    /// claimable.
    pub open spec fn is_best(self, ctx: int, id: int) -> bool {
        if id == 0 {
            forall|i: int| !self.claimable(ctx, i)
        } else {
            &&& self.claimable(ctx, id)
            &&& forall|i: int|
                #[trigger] self.claimable(ctx, i) ==> self.priority[i] < self.priority[id] || (
                self.priority[i] == self.priority[id] && i <= id)
        }
    }

    /// The best claimable source of a context.
    pub open spec fn best(self, ctx: int) -> int {
        choose|id: int| self.is_best(ctx, id)
    }

    /// The register at `off`, for the registers whose reads have no effect.
    pub open spec fn register(self, off: u64) -> u32 {
        if off < 0x1000 {
            if off / 4 < PLIC_SOURCES {
                self.priority[off as int / 4]
            } else {
                0
            }
        } else if off == 0x20_0000 {
            self.threshold[0]
        } else if off == 0x20_1000 {
            self.threshold[1]
        } else {
            0
        }
    }

    /// The context whose claim/complete register is at `off`.
    pub open spec fn claim_context(off: u64) -> Option<int> {
        if off == 0x20_0004 {
            Some(0)
        } else if off == 0x20_1004 {
            Some(1)
        } else {
            None
        }
    }

    /// The context whose enable register is at `off`.
    pub open spec fn enable_context(off: u64) -> Option<int> {
        if off == 0x2000 {
            Some(0)
        } else if off == 0x2080 {
            Some(1)
        } else {
            None
        }
    }

    /// The controller after source `id` goes into service.
    pub open spec fn claim(self, id: int) -> PlicView {
        if id == 0 {
            self
        } else {
            PlicView { claimed: self.claimed.update(id, true), ..self }
        }
    }

    /// The controller after a write of `val` at `off`.
    pub open spec fn written(self, off: u64, val: u32) -> PlicView {
        if off < 0x1000 {
            if 1 <= off / 4 < PLIC_SOURCES {
                PlicView { priority: self.priority.update(off as int / 4, val), ..self }
            } else {
                self
            }
        } else if let Some(ctx) = PlicView::enable_context(off) {
            PlicView { enable: self.enable.update(ctx, sources(val).update(0, false)), ..self }
        } else if off == 0x20_0000 {
            PlicView { threshold: self.threshold.update(0, val), ..self }
        } else if off == 0x20_1000 {
            PlicView { threshold: self.threshold.update(1, val), ..self }
        } else if PlicView::claim_context(off) is Some && val < PLIC_SOURCES {
            PlicView { claimed: self.claimed.update(val as int, false), ..self }
        } else {
            self
        }
    }
}

/// A context has exactly one best source.
pub proof fn law_best_is_unique(plic: PlicView, ctx: int, a: int, b: int)
    requires
        plic.wf(),
        0 <= ctx < PLIC_CONTEXTS,
        plic.is_best(ctx, a),
        plic.is_best(ctx, b),
    ensures
        a == b,
{
    if a != 0 && b != 0 {
        assert(plic.claimable(ctx, a));
        assert(plic.claimable(ctx, b));
    } else if a == 0 && b != 0 {
        assert(plic.claimable(ctx, b));
    } else if b == 0 && a != 0 {
        assert(plic.claimable(ctx, a));
    }
}

/// A source in service is not offered again to any context until it is
/// completed.
pub proof fn law_claimed_source_is_withheld(plic: PlicView, ctx: int, id: int)
    requires
        plic.wf(),
        0 < id < PLIC_SOURCES,
        0 <= ctx < PLIC_CONTEXTS,
    ensures
        !plic.claim(id).is_best(ctx, id),
{
}

/// Completing a source that was claimed puts the controller back where it was.
pub proof fn law_complete_undoes_claim(plic: PlicView, id: int)
    requires
        plic.wf(),
        0 < id < PLIC_SOURCES,
        !plic.claimed[id],
    ensures
        plic.claim(id).written(0x20_0004, id as u32) == plic,
{
    assert(plic.claim(id).written(0x20_0004, id as u32).claimed =~= plic.claimed);
}

impl Plic {
    /// See [`PlicView::wf`].
    pub open spec fn wf(&self) -> bool {
        self@.wf()
    }

    /// A controller with every priority, enable and threshold zero.
    pub fn new() -> (plic: Plic)
        ensures
            plic.wf(),
            plic@ == PlicView::reset(),
    {
        let plic = Plic {
            priority: [0; 32],
            pending: 0,
            enable: [0; 2],
            threshold: [0; 2],
            claimed: 0,
        };
        proof {
            lemma_no_source();
            assert(sources(0) =~= Seq::new(32, |i: int| false));
            assert(plic@.priority =~= Seq::new(32, |i: int| 0u32));
            assert(plic@.enable =~= Seq::new(2, |c: int| Seq::new(32, |i: int| false)));
            assert(plic@.threshold =~= Seq::new(2, |c: int| 0u32));
        }
        plic
    }

    /// Best claimable source for a context (highest priority > threshold,
    /// enabled, pending, not already in-service). 0 if none.
    pub fn best(&self, ctx: usize) -> (id: u32)
        requires
            self.wf(),
            ctx < PLIC_CONTEXTS,
        ensures
            self@.is_best(ctx as int, id as int),
            id == self@.best(ctx as int),
            id < PLIC_SOURCES,
    {
        let mut best_id: u32 = 0;
        let mut best_pri: u32 = 0;
        let mut i: u32 = 0;
        while i < 32
            invariant
                i <= 32,
                self.wf(),
                ctx < PLIC_CONTEXTS,
                best_id < 32,
                best_id == 0 ==> best_pri == 0 && forall|k: int|
                    0 <= k < i ==> !self@.claimable(ctx as int, k),
                best_id != 0 ==> {
                    &&& best_id < i
                    &&& best_pri == self@.priority[best_id as int]
                    &&& self@.claimable(ctx as int, best_id as int)
                    &&& forall|k: int|
                        0 <= k < i && #[trigger] self@.claimable(ctx as int, k)
                            ==> self@.priority[k] < best_pri || (self@.priority[k] == best_pri && k
                            <= best_id)
                },
            decreases 32 - i,
        {
            let mask: u32 = 1u32 << i;
            let pri: u32 = self.priority[i as usize];
            assert(self@.pending[i as int] == source_bit(self.pending, i as int));
            assert(self@.claimed[i as int] == source_bit(self.claimed, i as int));
            assert(self@.enable[ctx as int][i as int] == source_bit(
                self.enable@[ctx as int],
                i as int,
            ));
            let eligible = self.pending & mask != 0 && self.enable[ctx] & mask != 0 && self.claimed
                & mask == 0;
            if eligible && pri > self.threshold[ctx] && pri >= best_pri {
                assert(!self@.enable[ctx as int][0]);
                best_pri = pri;
                best_id = i;
            }
            i = i + 1;
        }
        proof {
            assert(self@.is_best(ctx as int, best_id as int));
            law_best_is_unique(
                self@,
                ctx as int,
                best_id as int,
                self@.best(ctx as int),
            );
        }
        best_id
    }

    /// Does context `ctx` have a deliverable external interrupt?
    pub fn pending_ctx(&self, ctx: usize) -> (pending: bool)
        requires
            self.wf(),
            ctx < PLIC_CONTEXTS,
        ensures
            pending == exists|i: int| self@.claimable(ctx as int, i),
    {
        let id: u32 = self.best(ctx);
        assert(id != 0 ==> self@.claimable(ctx as int, id as int));
        id != 0
    }

    /// MMIO read. A read of a claim register puts the best source of its
    /// context into service.
    pub fn read(&mut self, off: u64) -> (value: u32)
        requires
            old(self).wf(),
        ensures
            final(self).wf(),
            match PlicView::claim_context(off) {
                Some(ctx) => {
                    &&& value == old(self)@.best(ctx)
                    &&& value < PLIC_SOURCES
                    &&& final(self)@ == old(self)@.claim(old(self)@.best(ctx))
                },
                None => {
                    &&& final(self)@ == old(self)@
                    &&& if off == 0x1000 {
                        sources(value) == old(self)@.pending
                    } else {
                        match PlicView::enable_context(off) {
                            Some(ctx) => sources(value) == old(self)@.enable[ctx],
                            None => value == old(self)@.register(off),
                        }
                    }
                },
            },
    {
        if off < 0x1000 {
            let id: usize = (off / 4) as usize;
            return if id < 32 {
                self.priority[id]
            } else {
                0
            };
        }
        if off == 0x1000 {
            return self.pending;
        }
        if off >= 0x2000 && off < 0x2100 {
            let ctx: usize = ((off - 0x2000) / 0x80) as usize;
            return if (off - 0x2000) % 0x80 == 0 {
                self.enable[ctx]
            } else {
                0
            };
        }
        if off >= 0x20_0000 {
            let ctx: u64 = (off - 0x20_0000) / 0x1000;
            let reg: u64 = (off - 0x20_0000) % 0x1000;
            if ctx >= 2 {
                return 0;
            }
            if reg == 0 {
                return self.threshold[ctx as usize];
            }
            if reg == 4 {
                // claim: return best, mark in-service
                let id: u32 = self.best(ctx as usize);
                if id != 0 {
                    self.claimed = with_source(self.claimed, id);
                    assert(self@.claimed =~= old(self)@.claimed.update(id as int, true));
                }
                return id;
            }
        }
        0
    }

    /// MMIO write. A write to a claim register completes a source.
    pub fn write(&mut self, off: u64, val: u32)
        requires
            old(self).wf(),
        ensures
            final(self).wf(),
            final(self)@ == old(self)@.written(off, val),
    {
        if off < 0x1000 {
            let id: usize = (off / 4) as usize;
            if id != 0 && id < 32 {
                self.priority[id] = val;
            }
            return ;
        }
        if off >= 0x2000 && off < 0x2100 {
            let ctx: usize = ((off - 0x2000) / 0x80) as usize;
            if (off - 0x2000) % 0x80 == 0 {
                // source 0 never enabled
                let mask: u32 = without_source(val, 0);
                self.enable[ctx] = mask;
                proof {
                    assert(sources(mask) =~= sources(val).update(0, false));
                    assert(self@.enable =~= old(self)@.enable.update(
                        ctx as int,
                        sources(val).update(0, false),
                    ));
                }
            }
            return ;
        }
        if off >= 0x20_0000 {
            let ctx: u64 = (off - 0x20_0000) / 0x1000;
            let reg: u64 = (off - 0x20_0000) % 0x1000;
            if ctx >= 2 {
                return ;
            }
            if reg == 0 {
                self.threshold[ctx as usize] = val;
            } else if reg == 4 {
                // complete: clear in-service for this source
                if val < 32 {
                    self.claimed = without_source(self.claimed, val);
                    assert(self@.claimed =~= old(self)@.claimed.update(val as int, false));
                }
            }
        }
    }

    /// Drive the device lines.
    pub fn set_pending(&mut self, lines: u32)
        requires
            old(self).wf(),
        ensures
            final(self).wf(),
            final(self)@ == (PlicView { pending: sources(lines), ..old(self)@ }),
    {
        self.pending = lines;
    }

    /// The device lines and the sources in service, as masks.
    pub fn masks(&self) -> (masks: (u32, u32))
        ensures
            sources(masks.0) == self@.pending,
            sources(masks.1) == self@.claimed,
    {
        (self.pending, self.claimed)
    }
}

} // verus!
