//! The state of the compiler: compiled code, the tables on the dispatch path,
//! and what has been discovered of the guest's code.

use vstd::prelude::*;
use crate::codecache::CodeDispatch;
use crate::jit::block::{page_base, JitBlock, ModuleView, PendingBlock, PendingView};
use crate::jit::code::{owner_in, slot_in, slot_of, CodeCache, CodeView};
use crate::jit::dispatch::{
    line_of, BailsView, Dispatch, DispatchView, Heat, HeatView, Successors, SuccessorsView,
    TlbBails, DISPATCH_SIZE,
};
use crate::jit::index::{PageKey, PageMap};
use crate::jit::pages::{entered, Discovery, DiscoveryView};
use crate::jit::policy::{JitPolicy, TlbFillPolicy};
use crate::jit::recency::{colder, JitOwnerId};
use crate::jit::table::{bump, bumped};

verus! {

broadcast use vstd::std_specs::hash::group_hash_axioms;

/// Dispatch-line index bit that marks a region function, so that the exit can be
/// attributed without a cache lookup. Table indices stay far below this bit.
/// Shared with the emitter, whose chain transfers mask it off.
pub const SB_IDX_BIT: i32 = 0x4000_0000;

/// Dispatch-line index bit that marks a page module.
pub const PAGE_IDX_BIT: i32 = 0x2000_0000;

/// Every index bit that is no part of a table index.
pub const IDX_TAG_MASK: i32 = 0x6000_0000;

/// Interpreter entries before a pc becomes a root of its page's module.
pub const PAGE_MODULE_WARM_THRESHOLD: u16 = 4;

/// A fully translated hot trace waiting for a shared module wrapper.
#[derive(Debug)]
pub struct StagedBlock {
    /// Handle of the translated body, which the embedding keeps.
    pub body: u64,
    pub pending: PendingBlock,
}

/// The state of a [`StagedBlock`].
#[verifier::ext_equal]
pub struct StagedView {
    pub body: u64,
    pub pending: PendingView,
}

impl View for StagedBlock {
    type V = StagedView;

    open spec fn view(&self) -> StagedView {
        StagedView { body: self.body, pending: self.pending@ }
    }
}

/// How often the state gave something up.
#[derive(Clone, Copy, Debug, PartialEq, Eq, Structural)]
pub struct EvictionCounters {
    pub owners: u64,
    pub slots: u64,
    pub cooled_entries: u64,
}

/// The compiler's state.
pub struct JitState {
    pub code: CodeCache,
    pub lines: Dispatch,
    pub heat: Heat,
    pub succ: Successors,
    pub bails: TlbBails,
    pub pages: Discovery,
    /// Fully translated hot traces waiting for one shared module wrapper.
    /// Staging is global because module packaging does not require code or
    /// control-flow locality; each body keeps its own source-page proof.
    pub confirmed_stage: Vec<StagedBlock>,
    /// Exact PCs covered by staged or asynchronously compiling confirmed
    /// traces. Reference counts keep overlapping traces independent.
    pub confirmed_coverage: PageMap<u16>,
    /// Last observed generation of address-space switches.
    pub flush_gen: u64,
    pub evictions: EvictionCounters,
}

/// The state of a [`JitState`].
#[verifier::ext_equal]
pub struct JitView {
    pub code: CodeView,
    pub lines: DispatchView,
    pub heat: HeatView,
    pub succ: SuccessorsView,
    pub bails: BailsView,
    pub pages: DiscoveryView,
    pub stage: Seq<StagedView>,
    pub coverage: Map<(u64, u64), u16>,
    pub flush_gen: u64,
    pub evictions: EvictionCounters,
}

/// What is staged.
pub open spec fn staged(stage: Seq<StagedBlock>) -> Seq<StagedView> {
    stage.map_values(|s: StagedBlock| s@)
}

impl View for JitState {
    type V = JitView;

    open spec fn view(&self) -> JitView {
        JitView {
            code: self.code@,
            lines: self.lines@,
            heat: self.heat@,
            succ: self.succ@,
            bails: self.bails@,
            pages: self.pages@,
            stage: staged(self.confirmed_stage@),
            coverage: self.confirmed_coverage@,
            flush_gen: self.flush_gen,
            evictions: self.evictions,
        }
    }
}

/// Every compiled entry passes the filter.
pub open spec fn filter_passes(cache: Map<u64, Option<JitBlock>>, filter: Seq<bool>) -> bool {
    forall|pc: u64| (#[trigger] slot_in(cache, pc)) is Some ==> filter[line_of(pc)]
}

/// The tagged index of a block in its dispatch line.
pub open spec fn tagged(block: JitBlock, page_module: bool) -> i32 {
    let region = if block.n == 0 && block.idx >= 0 {
        block.idx | SB_IDX_BIT
    } else {
        block.idx
    };
    if block.idx >= 0 && page_module {
        region | PAGE_IDX_BIT
    } else {
        region
    }
}

impl JitView {
    /// Nothing is compiled, and nothing is known.
    pub open spec fn fresh() -> JitView {
        JitView {
            code: CodeView::fresh(),
            lines: DispatchView::fresh(),
            heat: HeatView::fresh(),
            succ: SuccessorsView::fresh(),
            bails: BailsView::fresh(),
            pages: DiscoveryView::fresh(),
            stage: Seq::empty(),
            coverage: Map::empty(),
            flush_gen: 0,
            evictions: EvictionCounters { owners: 0, slots: 0, cooled_entries: 0 },
        }
    }

    /// Whether the code at `pc` is compiled.
    pub open spec fn compiled(self, pc: u64) -> bool {
        slot_in(self.code.cache, pc) is Some
    }

    /// Whether a slot belongs to a page module.
    pub open spec fn is_page_slot(self, idx: i32) -> bool {
        self.code.slot_owner.contains_key(idx) && self.code.module_key.contains_key(
            self.code.slot_owner[idx],
        )
    }

    /// The state with another entry at `pc`.
    pub open spec fn inserted(self, pc: u64, entry: Option<JitBlock>) -> JitView {
        JitView {
            code: self.code.inserted(pc, entry),
            lines: if slot_of(entry) is Some {
                self.lines.noted(pc)
            } else {
                self.lines
            },
            ..self
        }
    }

    /// The state without an entry at `pc`.
    pub open spec fn dropped(self, pc: u64) -> JitView {
        JitView { code: self.code.dropped(pc, false), ..self }
    }

    /// Whether `now` is this state after a complete module was retired. The
    /// entries that ran in it have lost their dispatch lines and, if the module
    /// was evicted, their heat.
    pub open spec fn without_module(self, now: JitView, owner: JitOwnerId, evicted: bool) -> bool {
        exists|pcs: Seq<u64>|
            {
                &&& pcs.no_duplicates()
                &&& pcs.to_set() =~= self.code.entries_of(owner)
                &&& #[trigger] self.module_stripped(now, owner, evicted, pcs)
            }
    }

    /// [`without_module`](JitView::without_module), the entries of the module
    /// being `pcs`.
    pub open spec fn module_stripped(
        self,
        now: JitView,
        owner: JitOwnerId,
        evicted: bool,
        pcs: Seq<u64>,
    ) -> bool {
        &&& self.code.without_module(now.code, owner, evicted)
        &&& now.lines == self.lines.without_lines(pcs, pcs.len() as int)
        &&& now.heat == if evicted {
            self.heat.cooled_all(pcs, pcs.len() as int)
        } else {
            self.heat
        }
        &&& now == (JitView {
            code: now.code,
            lines: now.lines,
            heat: now.heat,
            evictions: EvictionCounters {
                cooled_entries: if evicted {
                    ((self.evictions.cooled_entries + pcs.len()) % 0x1_0000_0000_0000_0000) as u64
                } else {
                    self.evictions.cooled_entries
                },
                ..self.evictions
            },
            ..self
        })
    }
}

impl JitState {
    /// Every part is sound, and compiled entries pass the filter.
    pub open spec fn wf(&self) -> bool {
        &&& self.code.wf()
        &&& self.lines.wf()
        &&& self.heat.wf()
        &&& self.succ.wf()
        &&& self.bails.wf()
        &&& self.pages.wf()
        &&& filter_passes(self@.code.cache, self@.lines.filter)
    }

    pub fn new() -> (jit: JitState)
        ensures
            jit.wf(),
            jit@ == JitView::fresh(),
    {
        let jit = JitState {
            code: CodeCache::new(),
            lines: Dispatch::new(),
            heat: Heat::new(),
            succ: Successors::new(),
            bails: TlbBails::new(),
            pages: Discovery::new(),
            confirmed_stage: Vec::new(),
            confirmed_coverage: PageMap::new(),
            flush_gen: 0,
            evictions: EvictionCounters { owners: 0, slots: 0, cooled_entries: 0 },
        };
        assert(jit@.stage =~= Seq::<StagedView>::empty());
        jit
    }

    /// Release every slot and forget everything but the counters.
    pub fn clear(&mut self)
        requires
            old(self).wf(),
        ensures
            final(self).wf(),
            crate::jit::code::table_released(
                old(self)@.code.table,
                final(self)@.code.table,
                old(self)@.code.slot_owner.dom(),
                false,
            ),
            final(self)@ == (JitView {
                code: CodeView {
                    table: final(self)@.code.table,
                    stamp: old(self)@.code.stamp,
                    ..CodeView::fresh()
                },
                lines: old(self)@.lines.emptied(),
                flush_gen: old(self)@.flush_gen,
                evictions: old(self)@.evictions,
                ..JitView::fresh()
            }),
            forall|pc: u64| !final(self)@.compiled(pc),
    {
        self.code.clear();
        self.lines.clear();
        self.heat.clear();
        self.succ.clear();
        self.bails.clear();
        self.pages.clear();
        self.confirmed_stage.clear();
        self.confirmed_coverage.clear();
        assert(self@.stage =~= Seq::<StagedView>::empty());
    }

    /// Whether the code at `pc` is compiled.
    pub fn compiled(&self, pc: u64) -> (r: bool)
        requires
            self.wf(),
        ensures
            r == self@.compiled(pc),
    {
        if !self.lines.may_have_compiled(pc) {
            assert(!(slot_in(self@.code.cache, pc) is Some));
            return false;
        }
        match self.code.entry(pc) {
            Some(Some(block)) => block.idx >= 0,
            _ => false,
        }
    }

    /// Put an entry in place of the one at `pc`.
    pub fn cache_insert(&mut self, pc: u64, entry: Option<JitBlock>) -> (previous: Option<
        Option<JitBlock>,
    >)
        requires
            old(self).wf(),
            slot_of(entry) matches Some(idx) ==> old(self)@.code.slot_owner.contains_key(idx),
        ensures
            final(self).wf(),
            final(self)@ == old(self)@.inserted(pc, entry),
            previous == if old(self)@.code.cache.contains_key(pc) {
                Some(old(self)@.code.cache[pc])
            } else {
                None
            },
    {
        let ghost was = self@;
        let compiled: bool = match entry {
            Some(block) => block.idx >= 0,
            None => false,
        };
        if compiled {
            self.lines.note_entry(pc);
        }
        let previous = self.code.cache_insert(pc, entry);
        proof {
            lemma_inserted_cache(was.code, pc, entry);
            assert forall|x: u64|
                (#[trigger] slot_in(self@.code.cache, x)) is Some implies self@.lines.filter[line_of(
                x,
            )] by {
                if x != pc {
                    assert(slot_in(self@.code.cache, x) == slot_in(was.code.cache, x));
                }
            }
        }
        previous
    }

    /// Drop the entry at `pc`.
    pub fn cache_remove(&mut self, pc: u64) -> (previous: Option<Option<JitBlock>>)
        requires
            old(self).wf(),
        ensures
            final(self).wf(),
            final(self)@ == old(self)@.dropped(pc),
            previous == if old(self)@.code.cache.contains_key(pc) {
                Some(old(self)@.code.cache[pc])
            } else {
                None
            },
    {
        let ghost was = self@;
        let previous = self.code.cache_remove(pc, false);
        proof {
            lemma_dropped_cache(was.code, pc, false);
            assert forall|x: u64|
                (#[trigger] slot_in(self@.code.cache, x)) is Some implies self@.lines.filter[line_of(
                x,
            )] by {
                assert(slot_in(self@.code.cache, x) == slot_in(was.code.cache, x));
            }
        }
        previous
    }

    /// Drop the entry at `pc` and its dispatch line.
    pub fn forget_entry(&mut self, pc: u64)
        requires
            old(self).wf(),
        ensures
            final(self).wf(),
            final(self)@ == (JitView {
                lines: old(self)@.lines.without_line(pc),
                ..old(self)@.dropped(pc)
            }),
    {
        self.cache_remove(pc);
        self.lines.clear_line(pc);
    }

    /// Note a use of the entry at `pc`.
    pub fn touch(&mut self, pc: u64)
        requires
            old(self).wf(),
        ensures
            final(self).wf(),
            final(self)@ == (JitView { code: old(self)@.code.used(pc), ..old(self)@ }),
    {
        let ghost was = self@;
        self.code.touch(pc);
        assert forall|x: u64|
            (#[trigger] slot_in(self@.code.cache, x)) is Some implies self@.lines.filter[line_of(
            x,
        )] by {
            assert(slot_in(self@.code.cache, x) == slot_in(was.code.cache, x));
        }
    }

    /// The index of a block in its dispatch line: region functions and page
    /// modules are marked.
    pub fn tagged_dispatch_index(&self, block: JitBlock) -> (index: i32)
        ensures
            index == tagged(block, self@.is_page_slot(block.idx)),
    {
        let mut index: i32 = block.idx;
        if block.n == 0 && block.idx >= 0 {
            index = block.idx | SB_IDX_BIT;
        }
        if block.idx >= 0 && self.code.is_page_module_slot(block.idx) {
            index = index | PAGE_IDX_BIT;
        }
        index
    }

    /// Retire one complete generated module and every cache entry which points
    /// into it. Returns how many slots the module had.
    pub fn retire_owner(&mut self, owner: JitOwnerId, evicted: bool) -> (slots: usize)
        requires
            old(self).wf(),
        ensures
            final(self).wf(),
            old(self)@.without_module(final(self)@, owner, evicted),
            slots == old(self)@.code.slots_of(owner).len(),
    {
        let ghost was = self@;
        let pcs: Vec<u64> = self.code.owner_entries.list_of(owner);
        proof {
            assert forall|pc: u64| pcs@.to_set().contains(pc) <==> was.code.entries_of(
                owner,
            ).contains(pc) by {
                assert(self.code.owner_entries.has(owner, pc) <==> owner_in(
                    was.code.slot_owner,
                    slot_in(was.code.cache, pc),
                ) == Some(owner));
            }
            assert(pcs@.to_set() =~= was.code.entries_of(owner));
        }
        if evicted {
            self.heat.cool_all(pcs.as_slice());
            self.evictions.cooled_entries = self.evictions.cooled_entries.wrapping_add(
                pcs.len() as u64,
            );
        }
        self.lines.clear_lines(pcs.as_slice());
        let slots: usize = self.code.retire_owner(owner, evicted);
        proof {
            assert forall|x: u64|
                (#[trigger] slot_in(self@.code.cache, x)) is Some implies self@.lines.filter[line_of(
                x,
            )] by {
                assert(slot_in(self@.code.cache, x) == slot_in(was.code.cache, x));
            }
            assert(was.module_stripped(self@, owner, evicted, pcs@));
        }
        slots
    }

    /// Retire the page module that a slot belongs to, if it belongs to one.
    pub fn retire_page_module_for_slot(&mut self, index: i32) -> (retired: bool)
        requires
            old(self).wf(),
        ensures
            final(self).wf(),
            retired == old(self)@.is_page_slot(index),
            if retired {
                old(self)@.without_module(
                    final(self)@,
                    old(self)@.code.slot_owner[index],
                    false,
                )
            } else {
                final(self)@ == old(self)@
            },
    {
        match self.code.owner_for_slot(index) {
            None => false,
            Some(owner) => {
                if !self.code.page_module_owner.contains_key(&owner) {
                    return false;
                }
                self.retire_owner(owner, false);
                true
            },
        }
    }

    /// Evict the coldest module without scanning the complete code cache.
    /// Returns how many slots it had.
    pub fn evict_cold_owner(&mut self) -> (slots: usize)
        requires
            old(self).wf(),
        ensures
            final(self).wf(),
            if old(self)@.code.recency =~= Map::<JitOwnerId, u64>::empty() {
                final(self)@ == old(self)@ && slots == 0
            } else {
                exists|owner: JitOwnerId|
                    {
                        &&& old(self)@.code.recency.contains_key(owner)
                        &&& forall|o: JitOwnerId| #[trigger]
                            old(self)@.code.recency.contains_key(o) && o != owner ==> colder(
                                (old(self)@.code.recency[owner], owner),
                                (old(self)@.code.recency[o], o),
                            )
                        &&& slots == old(self)@.code.slots_of(owner).len()
                        &&& #[trigger] old(self)@.evicted(final(self)@, owner)
                    }
            },
    {
        match self.code.owner_recency.coldest() {
            None => 0,
            Some(owner) => {
                let ghost was = self@;
                let slots: usize = self.retire_owner(owner, true);
                let ghost mid = self@;
                self.evictions.owners = bump(self.evictions.owners);
                self.evictions.slots = self.evictions.slots.wrapping_add(slots as u64);
                proof {
                    assert(self@ == mid.counted(slots as int));
                    assert(was.evicted(self@, owner)) by {
                        assert(was.without_module(mid, owner, true));
                    }
                }
                slots
            },
        }
    }
}

impl JitView {
    /// The counters after a module with so many slots was evicted.
    pub open spec fn counted(self, slots: int) -> JitView {
        JitView {
            evictions: EvictionCounters {
                owners: bumped(self.evictions.owners),
                slots: ((self.evictions.slots + slots) % 0x1_0000_0000_0000_0000) as u64,
                ..self.evictions
            },
            ..self
        }
    }

    /// Whether `now` is this state after a module was evicted and counted.
    pub open spec fn evicted(self, now: JitView, owner: JitOwnerId) -> bool {
        exists|mid: JitView| #[trigger]
            self.without_module(mid, owner, true) && now == mid.counted(
                self.code.slots_of(owner).len() as int,
            )
    }
}

proof fn lemma_inserted_cache(v: CodeView, pc: u64, entry: Option<JitBlock>)
    ensures
        v.inserted(pc, entry).cache == v.cache.insert(pc, entry),
{
}

proof fn lemma_dropped_cache(v: CodeView, pc: u64, evicted: bool)
    ensures
        v.dropped(pc, evicted).cache == v.cache.remove(pc),
{
}

// ---- coverage ------------------------------------------------------------

/// How many traces cover a pc.
pub open spec fn covers(coverage: Map<(u64, u64), u16>, key: (u64, u64)) -> u16 {
    if coverage.contains_key(key) {
        coverage[key]
    } else {
        0
    }
}

/// The coverage with a trace over the first `n` pcs added.
pub open spec fn covered(
    coverage: Map<(u64, u64), u16>,
    aspace: u64,
    pcs: Seq<u64>,
    n: int,
) -> Map<(u64, u64), u16>
    decreases n,
{
    if n <= 0 {
        coverage
    } else {
        let before = covered(coverage, aspace, pcs, n - 1);
        let key = (aspace, pcs[n - 1]);
        before.insert(
            key,
            if covers(before, key) == u16::MAX {
                u16::MAX
            } else {
                (covers(before, key) + 1) as u16
            },
        )
    }
}

/// The coverage with a trace over the first `n` pcs taken away.
pub open spec fn uncovered(
    coverage: Map<(u64, u64), u16>,
    aspace: u64,
    pcs: Seq<u64>,
    n: int,
) -> Map<(u64, u64), u16>
    decreases n,
{
    if n <= 0 {
        coverage
    } else {
        let before = uncovered(coverage, aspace, pcs, n - 1);
        let key = (aspace, pcs[n - 1]);
        if covers(before, key) <= 1 {
            before.remove(key)
        } else {
            before.insert(key, (covers(before, key) - 1) as u16)
        }
    }
}

impl JitState {
    /// Note that a trace is on its way.
    pub fn add_confirmed_coverage(&mut self, block: &PendingBlock)
        requires
            old(self).wf(),
        ensures
            final(self).wf(),
            final(self)@ == (JitView {
                coverage: covered(
                    old(self)@.coverage,
                    block.aspace,
                    block.trace_pcs@,
                    block.trace_pcs@.len() as int,
                ),
                ..old(self)@
            }),
    {
        let ghost was = self@;
        let mut i: usize = 0;
        while i < block.trace_pcs.len()
            invariant
                i <= block.trace_pcs@.len(),
                self.wf(),
                self@ == (JitView {
                    coverage: covered(was.coverage, block.aspace, block.trace_pcs@, i as int),
                    ..was
                }),
            decreases block.trace_pcs@.len() - i,
        {
            let key: (u64, u64) = (block.aspace, block.trace_pcs[i]);
            let refs: u16 = match self.confirmed_coverage.get(&key) {
                Some(refs) => *refs,
                None => 0,
            };
            self.confirmed_coverage.insert(key, refs.saturating_add(1));
            i = i + 1;
        }
    }

    /// Note that a trace is no longer on its way.
    pub fn remove_confirmed_coverage(&mut self, block: &PendingBlock)
        requires
            old(self).wf(),
        ensures
            final(self).wf(),
            final(self)@ == (JitView {
                coverage: uncovered(
                    old(self)@.coverage,
                    block.aspace,
                    block.trace_pcs@,
                    block.trace_pcs@.len() as int,
                ),
                ..old(self)@
            }),
    {
        let ghost was = self@;
        let mut i: usize = 0;
        while i < block.trace_pcs.len()
            invariant
                i <= block.trace_pcs@.len(),
                self.wf(),
                self@ == (JitView {
                    coverage: uncovered(was.coverage, block.aspace, block.trace_pcs@, i as int),
                    ..was
                }),
            decreases block.trace_pcs@.len() - i,
        {
            let ghost before = self@.coverage;
            let key: (u64, u64) = (block.aspace, block.trace_pcs[i]);
            let refs: u16 = match self.confirmed_coverage.get(&key) {
                Some(refs) => *refs,
                None => 0,
            };
            if refs <= 1 {
                self.confirmed_coverage.remove(&key);
            } else {
                self.confirmed_coverage.insert(key, refs - 1);
            }
            i = i + 1;
        }
    }

    /// Whether a trace that is on its way covers a pc.
    pub fn covers(&self, aspace: u64, pc: u64) -> (r: bool)
        ensures
            r == self@.coverage.contains_key((aspace, pc)),
    {
        self.confirmed_coverage.contains_key(&(aspace, pc))
    }

    // ---- the interpreter ----

    /// Note that the interpreter reached `pc`. Says whether it should return to
    /// the tier-up dispatcher: the code is compiled, or has become hot.
    pub fn observe_entry(&mut self, policy: &JitPolicy, tier_up: bool, aspace: u64, pc: u64) -> (stop:
        bool)
        requires
            old(self).wf(),
        ensures
            final(self).wf(),
            old(self)@.entry_observed(final(self)@, *policy, tier_up, aspace, pc, stop),
    {
        if self.compiled(pc) {
            return true;
        }
        if !tier_up {
            return false;
        }
        if self.covers(aspace, pc) {
            return false;
        }
        let count: u16 = self.heat.enter(pc);
        if count == PAGE_MODULE_WARM_THRESHOLD && policy.page_modules {
            self.pages.record_page_hot_entry(aspace, pc);
        }
        if (count as u32) < policy.threshold {
            return false;
        }
        self.heat.promote(pc, policy.threshold);
        true
    }

    // ---- bails ----

    /// Feed a zero-progress compiled entry into the adaptive TLB-refill policy.
    /// `fp_gate_open` says whether the architectural FP gate lets FP code run.
    /// Returns true when the current entry was removed for one refill-enabled
    /// recompilation, so the chain must return to the tier-up path.
    pub fn observe_tlb_bail(&mut self, policy: &JitPolicy, fp_gate_open: bool, pc: u64) -> (removed:
        bool)
        requires
            old(self).wf(),
        ensures
            final(self).wf(),
            old(self)@.bail_taken(final(self)@, *policy, fp_gate_open, pc, removed),
    {
        if policy.tlb_fill != TlbFillPolicy::Auto {
            return false;
        }
        let entry: Option<Option<JitBlock>> = self.code.entry(pc);
        // FP blocks deliberately bail before their first instruction while the
        // architectural FP gate is closed. That is not a memory-locality signal.
        match entry {
            Some(Some(block)) => {
                if block.fp && !fp_gate_open {
                    return false;
                }
            },
            _ => {},
        }
        if !self.bails.observe(pc) {
            return false;
        }
        // Recompile a repeatedly bailing entry once. A page router has unchecked
        // private links, so retire that complete owner as one coherent unit.
        let retired: bool = match entry {
            Some(Some(block)) => {
                proof {
                    if block.idx < 0 {
                        assert(!self@.code.slot_owner.contains_key(block.idx));
                    }
                }
                self.retire_page_module_for_slot(block.idx)
            },
            _ => false,
        };
        if !retired {
            self.forget_entry(pc);
        }
        true
    }
}

impl JitView {
    /// The page module that the entry at `pc` runs in.
    pub open spec fn page_module_of(self, pc: u64) -> Option<JitOwnerId> {
        match self.code.owner_at(pc) {
            Some(owner) => if self.code.module_key.contains_key(owner) {
                Some(owner)
            } else {
                None
            },
            None => None,
        }
    }

    /// Whether `now` is this state after the interpreter reached `pc`, and
    /// whether it is to return to the tier-up dispatcher: compiled code and code
    /// that is on its way stay as they are, all other code gets hotter.
    pub open spec fn entry_observed(
        self,
        now: JitView,
        policy: JitPolicy,
        tier_up: bool,
        aspace: u64,
        pc: u64,
        stop: bool,
    ) -> bool {
        if self.compiled(pc) {
            stop && now == self
        } else if !tier_up || self.coverage.contains_key((aspace, pc)) {
            !stop && now == self
        } else {
            let heat = self.heat.entered(pc);
            let count = heat.count(pc);
            &&& stop == (count >= policy.threshold)
            &&& now == (JitView {
                heat: if stop {
                    HeatView { hot: heat.hot.insert(pc, policy.threshold), ..heat }
                } else {
                    heat
                },
                pages: if count == PAGE_MODULE_WARM_THRESHOLD && policy.page_modules {
                    DiscoveryView {
                        hot: entered(self.pages.hot, (aspace, page_base(pc)), pc),
                        ..self.pages
                    }
                } else {
                    self.pages
                },
                ..self
            })
        }
    }

    /// Whether `now` is this state after the entry at `pc` bailed, and whether
    /// it was removed to be recompiled: a page module goes as a whole.
    pub open spec fn bail_taken(
        self,
        now: JitView,
        policy: JitPolicy,
        fp_gate_open: bool,
        pc: u64,
        removed: bool,
    ) -> bool {
        if self.ignores_bail(policy, fp_gate_open, pc) {
            !removed && now == self
        } else {
            let mid = JitView { bails: self.bails.bailed(pc), ..self };
            &&& removed == self.bails.recompiles(pc)
            &&& if !removed {
                now == mid
            } else if self.page_module_of(pc) is Some {
                mid.without_module(now, self.page_module_of(pc)->0, false)
            } else {
                now == (JitView { lines: mid.lines.without_line(pc), ..mid.dropped(pc) })
            }
        }
    }

    /// Whether a bail says nothing of the guest's memory: the policy is fixed,
    /// or the FP gate explains it.
    pub open spec fn ignores_bail(self, policy: JitPolicy, fp_gate_open: bool, pc: u64) -> bool {
        ||| policy.tlb_fill != TlbFillPolicy::Auto
        ||| self.code.cache.contains_key(pc) && (self.code.cache[pc] matches Some(block) && block.fp
            && !fp_gate_open)
    }
}

/// What the interpreter asks while it runs.
pub struct InterpreterDispatch<'a> {
    pub jit: &'a mut JitState,
    pub policy: JitPolicy,
    pub tier_up: bool,
    pub aspace: u64,
}

impl<'a> CodeDispatch for InterpreterDispatch<'a> {
    open spec fn valid(&self) -> bool {
        self.jit.wf()
    }

    open spec fn compiled(&self, pc: u64) -> bool {
        self.jit@.compiled(pc)
    }

    open spec fn reached(&self, pc: u64, stop: bool, now: &Self) -> bool {
        &&& self.jit@.entry_observed(
            now.jit@,
            self.policy,
            self.tier_up,
            self.aspace,
            pc,
            stop,
        )
        &&& now.policy == self.policy
        &&& now.tier_up == self.tier_up
        &&& now.aspace == self.aspace
    }

    fn contains(&self, pc: u64) -> (found: bool) {
        self.jit.compiled(pc)
    }

    fn observe(&mut self, pc: u64) -> (stop: bool) {
        let policy: JitPolicy = self.policy;
        let (tier_up, aspace): (bool, u64) = (self.tier_up, self.aspace);
        self.jit.observe_entry(&policy, tier_up, aspace, pc)
    }
}

/// Whether refill is compiled in.
pub fn tlb_fill_on(policy: &JitPolicy, auto_enabled: bool) -> (r: bool)
    ensures
        r == (policy.tlb_fill == TlbFillPolicy::On || (policy.tlb_fill == TlbFillPolicy::Auto
            && auto_enabled)),
{
    match policy.tlb_fill {
        TlbFillPolicy::On => true,
        TlbFillPolicy::Off => false,
        TlbFillPolicy::Auto => auto_enabled,
    }
}

/// Whether compiled FP code may run: the inexact flag is already set, the
/// rounding mode is the default one, and the FP state is dirty.
pub fn fp_gate_open(fcsr: u32, fs: u64) -> (open: bool)
    ensures
        open == (fcsr % 2 == 1 && fcsr / 32 % 8 == 0 && fs == 3),
{
    fcsr % 2 == 1 && fcsr / 32 % 8 == 0 && fs == 3
}

} // verus!
