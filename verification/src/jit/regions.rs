//! Region functions at work: where they exit to, when they grow along measured
//! traffic, and when they are given up.

use vstd::prelude::*;
use crate::jit::block::{page_base, page_of, ExitsView, PagePair, RegionExits};
use crate::jit::code::CodeView;
use crate::jit::index::{listed, others, without, PageKey};
use crate::jit::landing::{page_at, find_page};
use crate::jit::pages::{BuildRecord, DiscoveryView, SB_QUEUE_CAP};
use crate::jit::policy::JitPolicy;
use crate::jit::state::{JitState, JitView};

verus! {

broadcast use vstd::std_specs::hash::group_hash_axioms;

/// Pages an EXTENDED region may reach. Extension only ever grows along measured
/// exit traffic, so the cap bounds compile cost, not guesswork about
/// reachability.
pub const MAX_EXT_REGION_PAGES: usize = 16;

/// Sampled out-of-region exits before a region asks for extension.
pub const EXT_TRIGGER: u32 = 16;

/// Distinct out-of-region target pages tracked per region.
pub const EXT_TARGET_CAP: usize = 8;

/// Measured average stay (retired insns per dispatch of a region function)
/// below which an EXTENDED region is built with registers in MEMORY instead
/// of locals: short stays pay the union load/store at every entry/exit.
pub const EXT_MEMORY_MODE_STAY: u64 = 48;

/// Measured average stay below which a landed region function is DEMOTED:
/// its entries return to individual trace blocks and the lead page stops
/// rebuilding.
pub const DEMOTE_STAY: u64 = 24;

/// Sampled exits before the demotion verdict is trusted. Zero-retire
/// samples (entry bails: FP gate, first-instruction TLB miss) are excluded
/// from the average — they are refusals, not stays.
pub const DEMOTE_MIN_SAMPLES: u32 = 64;

/// How many times one page may be recompiled as a superblock as more of it
/// turns out to be hot.
pub const SB_RECOMPILE_CAP: u32 = 16;

/// Retired instructions a page must run before its FIRST rebuild; each further
/// rebuild doubles the wait.
pub const SB_PAGE_COOLDOWN: u64 = 8_000_000;

/// Hot entries of a page whose building is over.
pub const SPENT_ENTRIES: usize = usize::MAX / 2;

// ---- exits ---------------------------------------------------------------

/// What a sampled exit led to.
#[derive(Debug, Clone, Copy, PartialEq, Eq, Structural)]
pub enum ExitOutcome {
    /// The region is not known any more.
    Unknown,
    /// The exit stayed on the pages of the region.
    InRegion,
    /// The exit left the region.
    Left,
    /// The exit left the region, and the region asks for extension.
    Queued,
    /// The region does not hold execution and was given up.
    Demoted,
}

/// Where a target page is in a profile, from the `i`-th on.
pub open spec fn target_at(targets: Seq<(u64, u32)>, page: u64, i: int) -> Option<int>
    decreases targets.len() - i,
{
    if i < 0 || i >= targets.len() {
        None
    } else if targets[i].0 == page {
        Some(i)
    } else {
        target_at(targets, page, i + 1)
    }
}

/// The targets with one more exit to a page, as far as there is room.
pub open spec fn targets_after(targets: Seq<(u64, u32)>, page: u64) -> Seq<(u64, u32)> {
    match target_at(targets, page, 0) {
        Some(i) => targets.update(
            i,
            (
                targets[i].0,
                if targets[i].1 == u32::MAX {
                    u32::MAX
                } else {
                    (targets[i].1 + 1) as u32
                },
            ),
        ),
        None => if targets.len() < EXT_TARGET_CAP {
            targets.push((page, 1))
        } else {
            targets
        },
    }
}

impl ExitsView {
    /// The profile with the length of one more stay. A stay that retired
    /// nothing is a refusal and is not counted.
    pub open spec fn stayed(self, stay: u64) -> ExitsView {
        if stay > 0 {
            ExitsView {
                samples: if self.samples == u32::MAX {
                    u32::MAX
                } else {
                    (self.samples + 1) as u32
                },
                stay_sum: if self.stay_sum + stay > u64::MAX {
                    u64::MAX
                } else {
                    (self.stay_sum + stay) as u64
                },
                ..self
            }
        } else {
            self
        }
    }

    /// Whether the measured stays are too short to pay for their entries.
    pub open spec fn fails(self) -> bool {
        self.samples == DEMOTE_MIN_SAMPLES && self.stay_sum / (self.samples as u64) < DEMOTE_STAY
    }

    /// Whether a page is one of the region's.
    pub open spec fn covers(self, page: u64) -> bool {
        page_at(self.pages, page, 0) is Some
    }

    /// The profile with one more exit out of the region.
    pub open spec fn left(self, page: u64) -> ExitsView {
        ExitsView {
            total: if self.total == u32::MAX {
                u32::MAX
            } else {
                (self.total + 1) as u32
            },
            targets: targets_after(self.targets, page),
            ..self
        }
    }
}

impl JitView {
    /// What a sampled exit to `target` after `stay` instructions leads to.
    pub open spec fn exit_outcome(self, policy: JitPolicy, idx: i32, target: u64, stay: u64) -> ExitOutcome {
        if !self.code.exits.contains_key(idx) {
            ExitOutcome::Unknown
        } else {
            let r = self.code.exits[idx].stayed(stay);
            if r.fails() && policy.demote {
                ExitOutcome::Demoted
            } else if r.covers(page_base(target)) {
                ExitOutcome::InRegion
            } else if r.left(page_base(target)).total == EXT_TRIGGER && !self.code.ext_queue.contains(
                idx,
            ) && self.code.ext_queue.len() < SB_QUEUE_CAP {
                ExitOutcome::Queued
            } else {
                ExitOutcome::Left
            }
        }
    }

    /// The state with another profile of a region.
    pub open spec fn with_exits(self, idx: i32, r: ExitsView) -> JitView {
        JitView {
            code: CodeView { exits: self.code.exits.insert(idx, r), ..self.code },
            ..self
        }
    }

    /// The state after a sampled exit to `target` after `stay` instructions.
    pub open spec fn after_exit(self, policy: JitPolicy, idx: i32, target: u64, stay: u64) -> JitView {
        let stayed = self.with_exits(idx, self.code.exits[idx].stayed(stay));
        let left = self.with_exits(
            idx,
            self.code.exits[idx].stayed(stay).left(page_base(target)),
        );
        match self.exit_outcome(policy, idx, target, stay) {
            ExitOutcome::Unknown => self,
            ExitOutcome::Demoted => stayed.demoted(idx),
            ExitOutcome::InRegion => stayed,
            ExitOutcome::Left => left,
            ExitOutcome::Queued => JitView {
                code: CodeView { ext_queue: left.code.ext_queue.push(idx), ..left.code },
                ..left
            },
        }
    }

    /// The state without the entry at `pc` and its dispatch line, if the entry
    /// calls the slot.
    pub open spec fn unclaimed(self, idx: i32, pc: u64) -> JitView {
        if self.code.slot_at(pc) == Some(idx) {
            JitView { lines: self.lines.without_line(pc), ..self.dropped(pc) }
        } else {
            self
        }
    }

    /// The state without those of the first `n` entries that call the slot.
    pub open spec fn unclaimed_all(self, idx: i32, pcs: Seq<u64>, n: int) -> JitView
        decreases n,
    {
        if n <= 0 {
            self
        } else {
            self.unclaimed_all(idx, pcs, n - 1).unclaimed(idx, pcs[n - 1])
        }
    }

    /// The state after a region was given up: its entries are gone, so that they
    /// tier up as traces, and the build allowance of every page is spent, so
    /// that the page function does not come back.
    pub open spec fn demoted(self, idx: i32) -> JitView {
        let r = self.code.exits[idx];
        let stopped = JitView {
            code: CodeView {
                exits: self.code.exits.remove(idx),
                ext_queue: others(self.code.ext_queue, idx),
                ..self.code
            },
            ..self
        };
        let gone = stopped.unclaimed_all(idx, r.entries, r.entries.len() as int);
        JitView {
            pages: spent(gone.pages, r.aspace, r.pages, r.pages.len() as int),
            ..gone
        }
    }
}

/// Discovery after the build allowance of the first `n` pages was spent.
pub open spec fn spent(v: DiscoveryView, aspace: u64, pages: Seq<PagePair>, n: int) -> DiscoveryView
    decreases n,
{
    if n <= 0 {
        v
    } else {
        let before = spent(v, aspace, pages, n - 1);
        let key = (aspace, pages[n - 1].0);
        DiscoveryView {
            builds: before.builds.insert(
                key,
                BuildRecord { entries: SPENT_ENTRIES, compiles: SB_RECOMPILE_CAP, when: 0 },
            ),
            missed: before.missed.remove(key),
            ..before
        }
    }
}

fn count_target(targets: &mut Vec<(u64, u32)>, page: u64)
    ensures
        final(targets)@ == targets_after(old(targets)@, page),
{
    let mut i: usize = 0;
    while i < targets.len()
        invariant
            i <= targets@.len(),
            targets@ == old(targets)@,
            target_at(targets@, page, 0) == target_at(targets@, page, i as int),
        decreases targets@.len() - i,
    {
        let (target, count): (u64, u32) = targets[i];
        if target == page {
            targets.set(i, (target, count.saturating_add(1)));
            return;
        }
        i = i + 1;
    }
    if targets.len() < EXT_TARGET_CAP {
        targets.push((page, 1));
    }
}

impl JitState {
    fn set_profile(&mut self, idx: i32, r: RegionExits)
        requires
            old(self).wf(),
        ensures
            final(self).wf(),
            final(self)@ == old(self)@.with_exits(idx, r@),
    {
        let ghost was = self@;
        self.code.region_exits.insert(idx, r);
        assert(self@.code.exits =~= was.code.exits.insert(idx, r@));
    }

    /// Record one sampled exit of a landed region function: `target` is the pc
    /// the function published on its way out, `stay` what it retired.
    /// Out-of-region targets accumulate per page; enough of them queue the region
    /// for measured extension.
    pub fn record_region_exit(&mut self, policy: &JitPolicy, idx: i32, target: u64, stay: u64) -> (outcome:
        ExitOutcome)
        requires
            old(self).wf(),
            idx >= 0,
        ensures
            final(self).wf(),
            outcome == old(self)@.exit_outcome(*policy, idx, target, stay),
            final(self)@ == old(self)@.after_exit(*policy, idx, target, stay),
    {
        let ghost was = self@;
        let mut r: RegionExits = match self.code.region_exits.remove(&idx) {
            Some(r) => r,
            None => {
                assert(self@.code.exits =~= was.code.exits);
                return ExitOutcome::Unknown;
            },
        };
        let ghost known = was.code.exits[idx];
        assert(r@ == known);
        if stay > 0 {
            r.samples = r.samples.saturating_add(1);
            r.stay_sum = r.stay_sum.saturating_add(stay);
        }
        assert(r@ =~= known.stayed(stay));
        let fails: bool = r.samples == DEMOTE_MIN_SAMPLES && r.stay_sum / (r.samples as u64)
            < DEMOTE_STAY;
        if fails && policy.demote {
            self.set_profile(idx, r);
            assert(self@.code.exits =~= was.code.exits.insert(idx, known.stayed(stay)));
            self.demote_region(idx);
            return ExitOutcome::Demoted;
        }
        let page: u64 = page_of(target);
        if find_page(r.pages.as_slice(), page).is_some() {
            self.set_profile(idx, r);
            assert(self@.code.exits =~= was.code.exits.insert(idx, known.stayed(stay)));
            return ExitOutcome::InRegion;
        }
        r.total = r.total.saturating_add(1);
        count_target(&mut r.targets, page);
        assert(r@ =~= known.stayed(stay).left(page_base(target)));
        let queue: bool = r.total == EXT_TRIGGER;
        self.set_profile(idx, r);
        assert(self@.code.exits =~= was.code.exits.insert(
            idx,
            known.stayed(stay).left(page_base(target)),
        ));
        if queue && !listed(self.code.ext_queue.as_slice(), idx) && self.code.ext_queue.len()
            < SB_QUEUE_CAP {
            self.code.ext_queue.push(idx);
            ExitOutcome::Queued
        } else {
            ExitOutcome::Left
        }
    }

    fn unclaim(&mut self, idx: i32, pc: u64)
        requires
            old(self).wf(),
            idx >= 0,
        ensures
            final(self).wf(),
            final(self)@ == old(self)@.unclaimed(idx, pc),
    {
        match self.code.entry(pc) {
            Some(Some(block)) => {
                if block.idx == idx {
                    self.forget_entry(pc);
                }
            },
            _ => {},
        }
    }

    /// Un-claim a region function that measurably does not hold execution: its
    /// entry pcs go back to individual (trace) blocks — they are hot, so the
    /// counters re-tier them — and the build allowance of its pages is spent so
    /// the page function does not come back.
    pub fn demote_region(&mut self, idx: i32)
        requires
            old(self).wf(),
            idx >= 0,
        ensures
            final(self).wf(),
            final(self)@ == if old(self)@.code.exits.contains_key(idx) {
                old(self)@.demoted(idx)
            } else {
                old(self)@
            },
    {
        let ghost was = self@;
        let r: RegionExits = match self.code.region_exits.remove(&idx) {
            Some(r) => r,
            None => {
                assert(self@.code.exits =~= was.code.exits);
                return;
            },
        };
        let ghost known = was.code.exits[idx];
        let kept: Vec<i32> = without(self.code.ext_queue.as_slice(), idx);
        self.code.ext_queue = kept;
        assert(self@.code.exits =~= was.code.exits.remove(idx));
        let ghost stopped = self@;
        let mut i: usize = 0;
        while i < r.entries.len()
            invariant
                i <= r.entries@.len(),
                idx >= 0,
                self.wf(),
                self@ == stopped.unclaimed_all(idx, r.entries@, i as int),
            decreases r.entries@.len() - i,
        {
            self.unclaim(idx, r.entries[i]);
            i = i + 1;
        }
        let ghost gone = self@;
        let mut i: usize = 0;
        while i < r.pages.len()
            invariant
                i <= r.pages@.len(),
                self.wf(),
                self@ == (JitView {
                    pages: spent(gone.pages, r.aspace, r.pages@, i as int),
                    ..gone
                }),
            decreases r.pages@.len() - i,
        {
            let key: PageKey = (r.aspace, r.pages[i].0);
            self.pages.sb_gen.insert(
                key,
                BuildRecord { entries: SPENT_ENTRIES, compiles: SB_RECOMPILE_CAP, when: 0 },
            );
            self.pages.sb_missed.remove(&key);
            i = i + 1;
        }
    }
}

} // verus!
