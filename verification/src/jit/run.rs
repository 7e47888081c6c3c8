//! One run of the dispatcher: which code runs next, and when the run yields.
//!
//! The embedding calls compiled code, looks up mappings, interprets and
//! translates; what it does next, and what is learnt from what it did, is
//! decided here.

use vstd::prelude::*;
use crate::jit::block::{copied_pages, page_base, page_of, JitBlock, PagePair};
use crate::jit::dispatch::{line_of, DispatchLine, HeatView};
use crate::jit::index::PageKey;
use crate::jit::pages::{entered, DiscoveryView, SB_QUEUE_CAP};
use crate::jit::builds::wants_superblock;
use crate::jit::policy::JitPolicy;
use crate::jit::regions::ExitOutcome;
use crate::jit::state::{tagged, JitState, JitView, IDX_TAG_MASK, PAGE_IDX_BIT, SB_IDX_BIT};
use crate::jit::table::{bump, bumped};

verus! {

broadcast use vstd::std_specs::hash::group_hash_axioms;

/// Longest compiled-code residency between interrupt/device checks, in guest
/// instructions. Loops yield at this bound even when the caller's budget is
/// larger.
pub const INTERRUPT_QUANTUM: u64 = 0x10_0000;

/// Max chained block dispatches before returning to the interpreter (keeps
/// interrupt/budget latency bounded in fully-jitted loops).
pub const JIT_CHAIN_CAP: u32 = 1024;

/// Instructions of one interpreter slice.
pub const INTERPRETER_SLICE: u64 = 4096;

/// Attribute 1 of every 32 region-function exits (full attribution is a
/// map lookup per dispatch — measurable on region-heavy code).
pub const EXIT_SAMPLE: u64 = 32;

/// Nested chain transfers: each hop holds two frames until the chain unwinds, so
/// the cap bounds stack use; a chain that reaches it simply returns to the
/// dispatcher.
pub const CHAIN_DEPTH_CAP: u32 = 64;

// ---- tags ----------------------------------------------------------------

/// Whether a line's index is that of a page module.
pub open spec fn is_page_tagged(idx: i32) -> bool {
    idx & PAGE_IDX_BIT != 0
}

/// Whether a line's index is that of a region function.
pub open spec fn is_region_tagged(idx: i32) -> bool {
    idx & SB_IDX_BIT != 0
}

/// The table index in a line's index.
pub open spec fn untagged(idx: i32) -> i32 {
    idx & !IDX_TAG_MASK
}

/// The table index in a line's index.
pub fn table_index(idx: i32) -> (slot: i32)
    requires
        idx >= 0,
    ensures
        slot == untagged(idx),
        slot >= 0,
{
    let slot: i32 = idx & !IDX_TAG_MASK;
    assert(idx & !0x6000_0000i32 >= 0) by (bit_vector)
        requires
            idx >= 0,
    ;
    slot
}

/// Tags mark an index without changing which table slot it stands for, as long
/// as the table stays below the tags; an index without a slot keeps its sign.
pub proof fn law_tags_keep_the_slot(block: JitBlock, page_module: bool)
    requires
        block.idx < PAGE_IDX_BIT,
    ensures
        block.idx >= 0 ==> {
            &&& tagged(block, page_module) >= 0
            &&& untagged(tagged(block, page_module)) == block.idx
            &&& is_region_tagged(tagged(block, page_module)) == (block.n == 0)
            &&& is_page_tagged(tagged(block, page_module)) == page_module
        },
        block.idx < 0 ==> tagged(block, page_module) < 0,
{
    let i = block.idx;
    if i >= 0 {
        assert(i >= 0 && (i & !0x6000_0000i32) == i && (i & 0x4000_0000i32) == 0 && (i
            & 0x2000_0000i32) == 0 && ((i | 0x4000_0000i32) >= 0) && ((i | 0x4000_0000i32)
            & !0x6000_0000i32) == i && ((i | 0x4000_0000i32) & 0x4000_0000i32) != 0 && ((i
            | 0x4000_0000i32) & 0x2000_0000i32) == 0 && ((i | 0x2000_0000i32) >= 0) && ((i
            | 0x2000_0000i32) & !0x6000_0000i32) == i && ((i | 0x2000_0000i32) & 0x4000_0000i32)
            == 0 && ((i | 0x2000_0000i32) & 0x2000_0000i32) != 0 && (((i | 0x4000_0000i32)
            | 0x2000_0000i32) >= 0) && (((i | 0x4000_0000i32) | 0x2000_0000i32) & !0x6000_0000i32)
            == i && (((i | 0x4000_0000i32) | 0x2000_0000i32) & 0x4000_0000i32) != 0 && (((i
            | 0x4000_0000i32) | 0x2000_0000i32) & 0x2000_0000i32) != 0) by (bit_vector)
            requires
                0 <= i < 0x2000_0000i32,
        ;
    }
}

// ---- budgets -------------------------------------------------------------

/// Account for one dispatch of compiled code. Says whether the chain stops: a
/// stop was asked for, or the block made no progress.
pub fn account_compiled_dispatch(
    retired_sum: &mut u64,
    chained: &mut u32,
    retired: u64,
    stop_requested: bool,
) -> (stop: bool)
    requires
        *old(retired_sum) + retired <= u64::MAX,
        *old(chained) < u32::MAX,
    ensures
        *final(retired_sum) == *old(retired_sum) + retired,
        *final(chained) == *old(chained) + 1,
        stop == (stop_requested || retired == 0),
{
    *retired_sum = *retired_sum + retired;
    *chained = *chained + 1;
    stop_requested || retired == 0
}

/// The budgets of a run.
#[derive(Debug, Clone, Copy, PartialEq, Eq, Structural)]
pub struct Run {
    /// Instructions that the caller still grants.
    pub remaining: u64,
    /// Dispatches of the current chain.
    pub chained: u32,
    /// Instructions that the current chain has retired.
    pub retired_sum: u64,
    /// Instructions that the current chain may retire, to block granularity.
    pub round_budget: u64,
    /// What had been retired when fuel was last granted.
    pub fuel_stored_at: u64,
}

/// What follows a chain.
#[derive(Debug, Clone, Copy, PartialEq, Eq, Structural)]
pub enum AfterChain {
    /// The run yields.
    Yield,
    /// The chain ended on its bound, still in compiled code: serve devices and
    /// interrupts, and dispatch on.
    Boundary,
    /// The chain broke: compile or interpret what is there.
    Break,
}

impl Run {
    pub fn new(max_insns: u64) -> (run: Run)
        ensures
            run == (Run {
                remaining: max_insns,
                chained: 0,
                retired_sum: 0,
                round_budget: 0,
                fuel_stored_at: 0,
            }),
    {
        Run {
            remaining: max_insns,
            chained: 0,
            retired_sum: 0,
            round_budget: 0,
            fuel_stored_at: 0,
        }
    }

    /// Whether the run goes on: there is budget, the machine is on, and the host
    /// owes it nothing.
    pub fn goes_on(&self, powered_off: bool, pending_host_io: bool) -> (r: bool)
        ensures
            r == (self.remaining > 0 && !powered_off && !pending_host_io),
    {
        self.remaining > 0 && !powered_off && !pending_host_io
    }

    /// What a chain may retire: no more than the caller grants, and no more than
    /// interrupts can wait.
    pub open spec fn budget(self) -> u64 {
        if self.remaining < INTERRUPT_QUANTUM {
            self.remaining
        } else {
            INTERRUPT_QUANTUM
        }
    }

    /// The run at the start of a chain.
    pub open spec fn chain_begun(self) -> Run {
        Run {
            remaining: self.remaining,
            chained: 0,
            retired_sum: 0,
            round_budget: self.budget(),
            fuel_stored_at: 0,
        }
    }

    /// Begin a chain.
    pub fn begin_chain(&mut self)
        ensures
            *final(self) == old(self).chain_begun(),
    {
        self.round_budget = if self.remaining < INTERRUPT_QUANTUM {
            self.remaining
        } else {
            INTERRUPT_QUANTUM
        };
        self.chained = 0;
        self.retired_sum = 0;
        self.fuel_stored_at = 0;
    }

    /// Whether another dispatch may follow in this chain.
    pub open spec fn chain_continues(self) -> bool {
        self.chained < JIT_CHAIN_CAP && self.retired_sum < self.round_budget
    }

    /// Whether another dispatch may follow in this chain.
    pub fn chain_goes_on(&self) -> (r: bool)
        ensures
            r == self.chain_continues(),
    {
        self.chained < JIT_CHAIN_CAP && self.retired_sum < self.round_budget
    }

    /// Whether fuel has to be granted anew: every eight dispatches or four
    /// thousand instructions.
    pub open spec fn fuel_due(self) -> bool {
        self.chained % 8 == 0 || self.retired_sum - self.fuel_stored_at > 4096
    }

    /// The run after fuel was granted where it was due.
    pub open spec fn fuelled(self) -> Run {
        Run {
            fuel_stored_at: if self.fuel_due() {
                self.retired_sum
            } else {
                self.fuel_stored_at
            },
            ..self
        }
    }

    /// The fuel to grant before the next dispatch, where it has to be granted
    /// anew.
    pub fn grant_fuel(&mut self) -> (fuel: Option<u64>)
        requires
            old(self).retired_sum < old(self).round_budget,
            old(self).fuel_stored_at <= old(self).retired_sum,
        ensures
            fuel == if old(self).fuel_due() {
                Some((old(self).round_budget - old(self).retired_sum) as u64)
            } else {
                None
            },
            *final(self) == old(self).fuelled(),
    {
        if self.chained % 8 == 0 || self.retired_sum - self.fuel_stored_at > 4096 {
            self.fuel_stored_at = self.retired_sum;
            Some(self.round_budget - self.retired_sum)
        } else {
            None
        }
    }

    /// The run after a dispatch that retired `retired` instructions.
    pub open spec fn accounted(self, retired: u64) -> Run {
        Run {
            chained: (self.chained + 1) as u32,
            retired_sum: if self.retired_sum + retired > u64::MAX {
                u64::MAX
            } else {
                (self.retired_sum + retired) as u64
            },
            ..self
        }
    }

    /// Account for a dispatch that retired `retired` instructions. Says whether
    /// the chain stops.
    pub fn account(&mut self, retired: u64, stop_requested: bool) -> (stop: bool)
        requires
            old(self).chained < JIT_CHAIN_CAP,
        ensures
            *final(self) == old(self).accounted(retired),
            stop == (stop_requested || retired == 0),
    {
        let room: u64 = u64::MAX - self.retired_sum;
        let counted: u64 = if retired < room {
            retired
        } else {
            room
        };
        account_compiled_dispatch(
            &mut self.retired_sum,
            &mut self.chained,
            counted,
            stop_requested,
        );
        stop_requested || retired == 0
    }

    /// The run after its chain was charged, and what follows.
    pub open spec fn chain_ended(self, pending_host_io: bool) -> (Run, AfterChain) {
        let run = Run {
            remaining: if self.retired_sum < self.remaining {
                (self.remaining - self.retired_sum) as u64
            } else {
                0
            },
            ..self
        };
        (
            run,
            if pending_host_io || run.remaining == 0 {
                AfterChain::Yield
            } else if self.chained == JIT_CHAIN_CAP || self.retired_sum >= self.round_budget {
                AfterChain::Boundary
            } else {
                AfterChain::Break
            },
        )
    }

    /// End a chain: charge what it retired, and say what follows.
    pub fn end_chain(&mut self, pending_host_io: bool) -> (follows: AfterChain)
        ensures
            (*final(self), follows) == old(self).chain_ended(pending_host_io),
    {
        self.remaining = self.remaining.saturating_sub(self.retired_sum);
        if pending_host_io || self.remaining == 0 {
            AfterChain::Yield
        } else if self.chained == JIT_CHAIN_CAP || self.retired_sum >= self.round_budget {
            AfterChain::Boundary
        } else {
            AfterChain::Break
        }
    }

    /// How many instructions to interpret next.
    pub open spec fn slice_size(self) -> u64 {
        if self.remaining < INTERPRETER_SLICE {
            self.remaining
        } else {
            INTERPRETER_SLICE
        }
    }

    /// How many instructions to interpret next.
    pub fn slice(&self) -> (n: u64)
        ensures
            n == self.slice_size(),
    {
        if self.remaining < INTERPRETER_SLICE {
            self.remaining
        } else {
            INTERPRETER_SLICE
        }
    }

    /// The run after an interpreter slice was charged, at least one instruction.
    pub open spec fn slice_charged(self, retired: u64) -> Run {
        let charged = if retired == 0 {
            1
        } else {
            retired
        };
        Run {
            remaining: if charged < self.remaining {
                (self.remaining - charged) as u64
            } else {
                0
            },
            ..self
        }
    }

    /// Charge an interpreter slice. Says whether the run goes on.
    pub fn end_slice(&mut self, retired: u64, idle: bool, pending_host_io: bool) -> (r: bool)
        ensures
            *final(self) == old(self).slice_charged(retired),
            r == (!idle && !pending_host_io),
    {
        let charged: u64 = if retired == 0 {
            1
        } else {
            retired
        };
        self.remaining = self.remaining.saturating_sub(charged);
        !idle && !pending_host_io
    }
}

/// What a run hands to its caller: whether the machine is off, or 2 where the
/// host owes it a disk operation.
pub fn run_result(powered_off: bool, pending_request: bool) -> (r: i32)
    ensures
        r == if pending_request {
            2i32
        } else if powered_off {
            1
        } else {
            0
        },
{
    if pending_request {
        2
    } else if powered_off {
        1
    } else {
        0
    }
}

// ---- lookups -------------------------------------------------------------

/// What is known of the code at a pc.
#[derive(Debug)]
pub enum Lookup {
    /// It is compiled and its mapping is verified: call this line index, or, if
    /// the index is negative, do not.
    Hit(i32),
    /// It is compiled; verify that the pc, and every one of these pages, still
    /// maps where it did.
    Verify(JitBlock, Option<Vec<PagePair>>),
    /// It is not compiled.
    Miss,
}

impl JitState {
    /// What is known of the code at `pc`. Fast path: the line is there and no
    /// mapping moved since it was verified. Any other case resolves through the
    /// cache with a look at the mapping, so that the cache survives the frequent
    /// fences of allocation-heavy processes.
    pub fn lookup(&self, pc: u64, map_gen: u32) -> (found: Lookup)
        requires
            self.wf(),
        ensures
            ({
                let line = self@.lines.lines[line_of(pc)];
                if line.pc == pc && line.gen == map_gen {
                    found == Lookup::Hit(line.idx)
                } else if self@.code.cache.contains_key(pc) && self@.code.cache[pc] is Some {
                    let block = self@.code.cache[pc]->0;
                    found matches Lookup::Verify(b, pages) && b == block && match pages {
                        Some(pages) => self@.code.regions.contains_key(block.idx) && pages@
                            == self@.code.regions[block.idx],
                        None => !self@.code.regions.contains_key(block.idx),
                    }
                } else {
                    found is Miss
                }
            }),
    {
        let line: DispatchLine = self.lines.line(pc);
        if line.pc == pc && line.gen == map_gen {
            return Lookup::Hit(line.idx);
        }
        match self.code.entry(pc) {
            Some(Some(block)) => {
                let pages: Option<Vec<PagePair>> = match self.code.regions.get(&block.idx) {
                    Some(pages) => Some(copied_pages(pages.as_slice())),
                    None => None,
                };
                Lookup::Verify(block, pages)
            },
            _ => Lookup::Miss,
        }
    }

    /// Take in whether the code at `pc`, which is `block`, still maps where it
    /// did. If so, the line is filled and its index returned. If not, the entry
    /// goes, with its whole module where it belongs to a page module.
    pub fn verified(&mut self, pc: u64, block: JitBlock, mapped: bool, map_gen: u32) -> (idx: Option<
        i32,
    >)
        requires
            old(self).wf(),
            old(self)@.code.cache.contains_key(pc),
            old(self)@.code.cache[pc] == Some(block),
        ensures
            final(self).wf(),
            if mapped {
                let tag = tagged(block, old(self)@.is_page_slot(block.idx));
                &&& idx == Some(tag)
                &&& final(self)@ == (JitView {
                    lines: old(self)@.lines.with_line(pc, tag, map_gen),
                    ..old(self)@
                })
            } else {
                &&& idx is None
                &&& if old(self)@.is_page_slot(block.idx) {
                    old(self)@.without_module(
                        final(self)@,
                        old(self)@.code.slot_owner[block.idx],
                        false,
                    )
                } else {
                    final(self)@ == (JitView {
                        lines: old(self)@.lines.without_line(pc),
                        ..old(self)@.dropped(pc)
                    })
                }
            },
    {
        if mapped {
            let tag: i32 = self.tagged_dispatch_index(block);
            self.lines.set_line(pc, tag, map_gen);
            return Some(tag);
        }
        if !self.retire_page_module_for_slot(block.idx) {
            self.forget_entry(pc);
        }
        None
    }

    /// The slot that a chained transfer to `pc` calls, if it may be made: the
    /// line is there, its mapping did not move, and the code is compiled.
    pub fn chain_target(&self, pc: u64, map_gen: u32) -> (slot: Option<i32>)
        requires
            self.wf(),
        ensures
            slot == ({
                let line = self@.lines.lines[line_of(pc)];
                if line.pc == pc && line.gen == map_gen && line.idx >= 0 {
                    Some(untagged(line.idx))
                } else {
                    None
                }
            }),
    {
        let line: DispatchLine = self.lines.line(pc);
        if line.pc != pc || line.gen != map_gen || line.idx < 0 {
            return None;
        }
        Some(table_index(line.idx))
    }
}

// ---- what a dispatch teaches ---------------------------------------------

/// What a dispatch of compiled code did.
#[derive(Debug, Clone, Copy, PartialEq, Eq, Structural)]
pub struct Dispatched {
    pub pc: u64,
    /// The index in the line that was called.
    pub idx: i32,
    /// Where it went.
    pub next: u64,
    pub retired: u64,
    /// Whether the FP gate lets FP code run.
    pub fp_gate_open: bool,
}

/// The number of exits, for sampling.
#[derive(Debug, Clone, Copy, PartialEq, Eq, Structural)]
pub struct ExitTick {
    pub tick: u64,
}

/// The number of exits after a dispatch: those of region functions count.
pub open spec fn ticked(tick: u64, d: Dispatched) -> u64 {
    if is_region_tagged(d.idx) {
        bumped(tick)
    } else {
        tick
    }
}

/// Whether a dispatch is an exit that is sampled.
pub open spec fn samples(tick: u64, d: Dispatched) -> bool {
    is_region_tagged(d.idx) && ticked(tick, d) % EXIT_SAMPLE == 0
}

impl JitView {
    /// Whether a dispatch proves an edge for the first time: the entry is then
    /// dropped so that it is recompiled through the edge.
    pub open spec fn extends(self, policy: JitPolicy, d: Dispatched) -> bool {
        &&& !is_page_tagged(d.idx)
        &&& self.succ.proves(d.pc, d.next, policy.ic_trigger)
        &&& !self.succ.extended.contains(d.pc)
    }

    /// The state after it was learnt where a dispatch went.
    pub open spec fn successor_learnt(self, policy: JitPolicy, d: Dispatched) -> JitView {
        let seen = JitView {
            succ: self.succ.observed(d.pc, d.next, policy.ic_trigger),
            ..self
        };
        if is_page_tagged(d.idx) {
            self
        } else if self.extends(policy, d) {
            JitView { lines: seen.lines.without_line(d.pc), ..seen.dropped(d.pc) }
        } else {
            seen
        }
    }

    /// The state after the exit of a region function was learnt, if it is
    /// sampled.
    pub open spec fn exit_learnt(self, policy: JitPolicy, tick: u64, d: Dispatched) -> JitView {
        if samples(tick, d) {
            self.after_exit(policy, untagged(d.idx), d.next, d.retired)
        } else {
            self
        }
    }

    /// Whether `now` is this state after everything was learnt from a dispatch,
    /// and whether the chain has to stop for it. A dispatch that retired nothing
    /// is a bail.
    pub open spec fn learnt(
        self,
        now: JitView,
        policy: JitPolicy,
        tick: u64,
        d: Dispatched,
        stop: bool,
    ) -> bool {
        let seen = self.successor_learnt(policy, d).exit_learnt(policy, tick, d);
        if d.retired > 0 {
            now == seen && stop == self.extends(policy, d)
        } else {
            exists|removed: bool|
                #[trigger] seen.bail_taken(now, policy, d.fp_gate_open, d.pc, removed) && stop == (
                self.extends(policy, d) || removed)
        }
    }
}

impl JitState {
    /// Learn where the code at `pc` went. Once the edge is proven stable, the
    /// entry is dropped once so that it is recompiled with an inline cache that
    /// continues through the edge. Says whether it was.
    pub fn learn_successor(&mut self, policy: &JitPolicy, d: Dispatched) -> (extended: bool)
        requires
            old(self).wf(),
        ensures
            final(self).wf(),
            extended == old(self)@.extends(*policy, d),
            final(self)@ == old(self)@.successor_learnt(*policy, d),
    {
        if d.idx & PAGE_IDX_BIT != 0 {
            return false;
        }
        if self.succ.observe(d.pc, d.next, policy.ic_trigger) {
            self.forget_entry(d.pc);
            true
        } else {
            false
        }
    }

    /// Learn where a region function went, from one of every so many exits.
    pub fn learn_exit(&mut self, policy: &JitPolicy, tick: &mut ExitTick, d: Dispatched) -> (outcome:
        Option<ExitOutcome>)
        requires
            old(self).wf(),
            d.idx >= 0,
        ensures
            final(self).wf(),
            final(tick).tick == ticked(old(tick).tick, d),
            outcome == if samples(old(tick).tick, d) {
                Some(old(self)@.exit_outcome(*policy, untagged(d.idx), d.next, d.retired))
            } else {
                None
            },
            final(self)@ == old(self)@.exit_learnt(*policy, old(tick).tick, d),
    {
        if d.idx & SB_IDX_BIT == 0 {
            return None;
        }
        tick.tick = bump(tick.tick);
        if tick.tick % EXIT_SAMPLE != 0 {
            return None;
        }
        Some(self.record_region_exit(policy, table_index(d.idx), d.next, d.retired))
    }

    /// Learn from a dispatch: where it went, where a region function left to,
    /// and, where it retired nothing, that it bailed. Says whether the chain has
    /// to stop because the entry is to be recompiled, and what became of a
    /// sampled exit.
    pub fn learn(&mut self, policy: &JitPolicy, tick: &mut ExitTick, d: Dispatched) -> (r: (
        bool,
        Option<ExitOutcome>,
    ))
        requires
            old(self).wf(),
            d.idx >= 0,
        ensures
            final(self).wf(),
            final(tick).tick == ticked(old(tick).tick, d),
            old(self)@.learnt(final(self)@, *policy, old(tick).tick, d, r.0),
            r.1 == if samples(old(tick).tick, d) {
                Some(
                    old(self)@.successor_learnt(*policy, d).exit_outcome(
                        *policy,
                        untagged(d.idx),
                        d.next,
                        d.retired,
                    ),
                )
            } else {
                None
            },
    {
        let extended: bool = self.learn_successor(policy, d);
        let outcome: Option<ExitOutcome> = self.learn_exit(policy, tick, d);
        if d.retired > 0 {
            return (extended, outcome);
        }
        let ghost seen = self@;
        let removed: bool = self.observe_tlb_bail(policy, d.fp_gate_open, d.pc);
        assert(seen.bail_taken(self@, *policy, d.fp_gate_open, d.pc, removed));
        (extended || removed, outcome)
    }
}

// ---- hot code ------------------------------------------------------------

/// What to do about the superblock of a page.
#[derive(Debug, Clone, Copy, PartialEq, Eq, Structural)]
pub enum SuperblockStep {
    /// Nothing.
    Nothing,
    /// Build it now.
    Build,
    /// It is remembered for a later quantum boundary.
    Deferred,
}

impl HeatView {
    /// How often `pc` was dispatched, with one dispatch more.
    pub open spec fn next_dispatched(self, pc: u64) -> u32 {
        if self.dispatched(pc) == u32::MAX {
            u32::MAX
        } else {
            (self.dispatched(pc) + 1) as u32
        }
    }
}

impl JitView {
    /// The state after one more dispatch of `pc`.
    pub open spec fn dispatch_counted(self, pc: u64) -> JitView {
        JitView {
            heat: HeatView {
                hot: self.heat.hot.insert(pc, self.heat.next_dispatched(pc)),
                ..self.heat
            },
            ..self
        }
    }
}

impl JitState {
    /// Count a dispatch of the uncompiled `pc`. Says whether it is hot.
    pub fn count_dispatch(&mut self, policy: &JitPolicy, pc: u64) -> (hot: bool)
        requires
            old(self).wf(),
        ensures
            final(self).wf(),
            hot == (policy.threshold != u32::MAX && old(self)@.heat.next_dispatched(pc)
                >= policy.threshold),
            final(self)@ == old(self)@.dispatch_counted(pc),
    {
        let n: u32 = self.heat.dispatch(pc);
        policy.compiles() && n >= policy.threshold
    }

    /// Count a dispatch of the code at `pc` where it may be compiled. Says whether
    /// it is worth compiling.
    pub fn consider(&mut self, policy: &JitPolicy, queue: &crate::jit::queue::JitQueue, aspace: u64, pc: u64) -> (hot:
        bool)
        requires
            old(self).wf(),
        ensures
            final(self).wf(),
            if crate::jit::issue::compilable(old(self)@, queue@, aspace, pc) {
                &&& hot == (policy.threshold != u32::MAX && old(self)@.heat.next_dispatched(pc)
                    >= policy.threshold)
                &&& final(self)@ == old(self)@.dispatch_counted(pc)
            } else {
                !hot && final(self)@ == old(self)@
            },
    {
        self.may_compile(queue, aspace, pc) && self.count_dispatch(policy, pc)
    }

    /// Note a hot pc on its page. Returns how many block entries the page has,
    /// where superblocks are built and the pc heads no loop.
    pub fn note_hot(&mut self, policy: &JitPolicy, aspace: u64, pc: u64, is_loop: bool) -> (n_entries:
        usize)
        requires
            old(self).wf(),
        ensures
            final(self).wf(),
            ({
                let key = (aspace, page_base(pc));
                let counts = policy.superblock && !is_loop;
                &&& n_entries == if counts {
                    entered(old(self)@.pages.entries, key, pc)[key].len()
                } else {
                    0
                }
                &&& final(self)@ == (JitView {
                    pages: DiscoveryView {
                        hot: entered(old(self)@.pages.hot, key, pc),
                        entries: if counts {
                            entered(old(self)@.pages.entries, key, pc)
                        } else {
                            old(self)@.pages.entries
                        },
                        ..old(self)@.pages
                    },
                    ..old(self)@
                })
            }),
    {
        self.pages.record_page_hot_entry(aspace, pc);
        if policy.superblock && !is_loop {
            self.pages.record_page_entry(aspace, pc)
        } else {
            0
        }
    }

    /// What to do about the superblock of a page that has another hot pc.
    /// `build_allowed` says whether the build budget lets one be built now. A
    /// request that the budget refuses is remembered: a page whose hot pcs all
    /// appear inside one budget window would otherwise never be revisited.
    pub fn superblock_step(
        &mut self,
        key: PageKey,
        n_entries: usize,
        is_loop: bool,
        page_in_ram: bool,
        build_allowed: bool,
        insn_count: u64,
    ) -> (step: SuperblockStep)
        requires
            old(self).wf(),
        ensures
            final(self).wf(),
            ({
                let wants = !is_loop && page_in_ram && wants_superblock(
                    old(self)@.pages,
                    key,
                    n_entries as int,
                    insn_count,
                );
                &&& step == if !wants {
                    SuperblockStep::Nothing
                } else if build_allowed {
                    SuperblockStep::Build
                } else {
                    SuperblockStep::Deferred
                }
                &&& final(self)@ == if step == SuperblockStep::Deferred && old(
                    self,
                )@.pages.queue.len() < SB_QUEUE_CAP && !old(self)@.pages.queue.contains(key) {
                    JitView {
                        pages: DiscoveryView {
                            queue: old(self)@.pages.queue.push(key),
                            ..old(self)@.pages
                        },
                        ..old(self)@
                    }
                } else {
                    old(self)@
                }
            }),
    {
        if is_loop || !page_in_ram || !self.wants_superblock(key, n_entries, insn_count) {
            return SuperblockStep::Nothing;
        }
        if build_allowed {
            return SuperblockStep::Build;
        }
        self.pages.defer(key);
        SuperblockStep::Deferred
    }

    /// Whether a target of a batch is worth a body: proven warm, not an entry of
    /// a region function, and not on its way.
    pub fn wants_member(
        &self,
        policy: &JitPolicy,
        queue: &crate::jit::queue::JitQueue,
        aspace: u64,
        seed: u64,
        target: u64,
        pages: &[PagePair],
    ) -> (r: bool)
        ensures
            r == ({
                let bar = crate::jit::run::batch_bar(*policy);
                &&& crate::jit::landing::page_at(pages@, page_base(target), 0) is Some
                &&& self@.heat.hot.contains_key(target) && self@.heat.hot[target] >= bar
                &&& !(self@.code.cache.contains_key(target) && (
                self@.code.cache[target] matches Some(b) && b.n == 0))
                &&& !crate::jit::issue::work_contains(self@, queue@, aspace, target)
                &&& !policy.batch_page || page_base(target) == page_base(seed)
            }),
    {
        if crate::jit::landing::find_page(pages, page_of(target)).is_none() {
            return false;
        }
        let warm: bool = match self.heat.heat_of(target) {
            Some(heat) => heat >= policy.batch_heat(),
            None => false,
        };
        if !warm {
            return false;
        }
        match self.code.entry(target) {
            Some(Some(block)) => {
                if block.n == 0 {
                    return false;
                }
            },
            _ => {},
        }
        if self.work_contains_pc(queue, aspace, target) {
            return false;
        }
        !policy.batch_page || page_of(target) == page_of(seed)
    }
}

/// The heat that makes a target warm: the threshold, halved so many times.
pub open spec fn batch_bar(policy: JitPolicy) -> u32 {
    halved(policy.threshold, policy.batch_bar_shift as int)
}

/// A number halved `n` times.
pub open spec fn halved(v: u32, n: int) -> u32
    decreases n,
{
    if n <= 0 {
        v
    } else {
        halved(v, n - 1) / 2
    }
}

impl JitPolicy {
    /// The heat that makes a target warm.
    pub fn batch_heat(&self) -> (bar: u32)
        ensures
            bar == batch_bar(*self),
    {
        let mut bar: u32 = self.threshold;
        let mut i: u32 = 0;
        while i < self.batch_bar_shift
            invariant
                i <= self.batch_bar_shift,
                bar == halved(self.threshold, i as int),
            decreases self.batch_bar_shift - i,
        {
            bar = bar / 2;
            i = i + 1;
        }
        bar
    }
}

/// Whether the interpreter looks out for code that is worth compiling.
pub fn tiers_up(policy: &JitPolicy, queue: &crate::jit::queue::JitQueue) -> (r: bool)
    ensures
        r == (policy.threshold != u32::MAX && queue@.issue_allowed()),
{
    policy.compiles() && queue.compilation_allowed() && queue.issue_allowed()
}

// ---- entering and leaving ------------------------------------------------

/// The handle that compiled code passes back when it needs the dispatcher.
/// Arbitrary arguments of exported callbacks must not be taken for it.
pub const FULL_SYSTEM_CONTEXT_HANDLE: i32 = 1;

/// Whether a run is in progress, and how deep compiled code has chained.
#[derive(Debug, Clone, Copy, PartialEq, Eq, Structural)]
pub struct RunGuard {
    pub active: bool,
    pub depth: u32,
}

impl RunGuard {
    pub fn new() -> (g: RunGuard)
        ensures
            g == (RunGuard { active: false, depth: 0 }),
    {
        RunGuard { active: false, depth: 0 }
    }

    /// Begin a run, unless one is in progress.
    pub fn begin(&mut self) -> (begun: bool)
        ensures
            begun == !old(self).active,
            *final(self) == (RunGuard { active: true, ..*old(self) }),
    {
        let begun: bool = !self.active;
        self.active = true;
        begun
    }

    /// End a run, however it ended.
    pub fn end(&mut self)
        ensures
            *final(self) == (RunGuard { active: false, ..*old(self) }),
    {
        self.active = false;
    }

    /// Begin a dispatch: each starts a new, independent chain.
    pub fn begin_dispatch(&mut self)
        ensures
            *final(self) == (RunGuard { depth: 0, ..*old(self) }),
    {
        self.depth = 0;
    }

    /// Whether a handle that compiled code passed back is good.
    pub fn accepts(&self, context: i32) -> (r: bool)
        ensures
            r == (context == FULL_SYSTEM_CONTEXT_HANDLE && self.active),
    {
        context == FULL_SYSTEM_CONTEXT_HANDLE && self.active
    }

    /// Whether compiled code may chain on: the handle is good, the chain is not
    /// too deep, the host is owed nothing, and there is fuel left.
    pub fn may_chain(&self, context: i32, pending_host_io: bool, retired: u64, fuel: u64) -> (r:
        bool)
        ensures
            r == (context == FULL_SYSTEM_CONTEXT_HANDLE && self.active && self.depth
                < CHAIN_DEPTH_CAP && !pending_host_io && retired < fuel),
    {
        self.accepts(context) && self.depth < CHAIN_DEPTH_CAP && !pending_host_io && retired < fuel
    }

    /// Enter one more chained transfer.
    pub fn enter_chain(&mut self)
        requires
            old(self).depth < CHAIN_DEPTH_CAP,
        ensures
            *final(self) == (RunGuard { depth: (old(self).depth + 1) as u32, ..*old(self) }),
    {
        self.depth = self.depth + 1;
    }

    /// Leave a chained transfer.
    pub fn leave_chain(&mut self)
        requires
            old(self).depth > 0,
        ensures
            *final(self) == (RunGuard { depth: (old(self).depth - 1) as u32, ..*old(self) }),
    {
        self.depth = self.depth - 1;
    }
}

// ---- laws ----------------------------------------------------------------

/// A run never grants a chain more than the caller left or interrupts allow, and
/// charging never increases what is left.
pub proof fn law_budgets_hold(run: Run)
    ensures
        run.budget() <= run.remaining,
        run.budget() <= INTERRUPT_QUANTUM,
{
}

} // verus!
