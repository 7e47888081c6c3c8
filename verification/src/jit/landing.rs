//! Compilations that come back from the host: whether they are still wanted, and
//! what they take the place of.

use vstd::prelude::*;
use crate::jit::block::{
    copied, copied_pages, page_base, page_of, ExitsView, JitBlock, PageModuleFinish, PagePair,
    PendingBatch, PendingBlock, PendingJit, PendingJitKind, PendingRegion, PendingView,
    RegionExits,
};
use crate::jit::code::{
    backs_in, member_pcs, pages_in, ram_page, slot_in, slots_live, CodeCache, CodeView,
};
use crate::jit::index::is_sorted_set_of;
use crate::jit::pages::{entered, DiscoveryView};
use crate::jit::policy::JitPolicy;
use crate::jit::queue::{JitQueue, QueueView};
use crate::jit::recency::{colder, JitOwnerId};
use crate::jit::state::{uncovered, JitState, JitView};
use crate::jit::table::{bumped, TableView};
use crate::ram::{JitPageState, JitPages, RAM_BASE};

verus! {

broadcast use vstd::std_specs::hash::group_hash_axioms;

/// What the host answers when its code store is full.
pub const JIT_REGISTER_CAPACITY: i32 = -2;

// ---- what is still wanted ------------------------------------------------

/// Pages of guest code lie in RAM and start where pages start.
pub open spec fn pages_ok(pages: Seq<PagePair>) -> bool {
    forall|k: int|
        0 <= k < pages.len() ==> (#[trigger] pages[k]).1 >= RAM_BASE && pages[k].1 % 0x1000 == 0
}

/// Whether a RAM page still holds the code that was compiled from it: it backs
/// compiled code, was not written since, and turned dirty as often as when the
/// compilation was issued.
pub open spec fn page_fresh(ram: JitPages, physical: u64, generation: u64) -> bool {
    let page = ram_page(physical) as int;
    &&& page < ram.marked.len() && page < ram.generation.len()
    &&& ram.marked[page]
    &&& !ram.dirty.contains(ram_page(physical))
    &&& ram.generation[page] == generation
}

/// Whether every page still holds the code that was compiled from it.
pub open spec fn pages_fresh(ram: JitPages, pages: Seq<PagePair>, generations: Seq<u64>) -> bool {
    forall|k: int|
        0 <= k < pages.len() && k < generations.len() ==> page_fresh(
            ram,
            (#[trigger] pages[k]).1,
            generations[k],
        )
}

/// Whether the code of a compilation is unchanged since it was issued.
pub open spec fn kind_fresh(ram: JitPages, kind: PendingJitKind) -> bool {
    match kind {
        PendingJitKind::Block(block) => pages_fresh(ram, block.pages@, block.page_generations@),
        PendingJitKind::Batch(batch) => forall|k: int|
            0 <= k < batch.members@.len() ==> pages_fresh(
                ram,
                (#[trigger] batch.members@[k]).pages@,
                batch.members@[k].page_generations@,
            ),
        PendingJitKind::Region(region) => pages_fresh(
            ram,
            region.pages@,
            region.page_generations@,
        ),
    }
}

fn check_pages(ram: &JitPageState, pages: &[PagePair], generations: &[u64]) -> (fresh: bool)
    requires
        ram.wf(),
        pages_ok(pages@),
    ensures
        fresh == pages_fresh(ram@, pages@, generations@),
{
    let mut i: usize = 0;
    while i < pages.len() && i < generations.len()
        invariant
            i <= pages@.len(),
            i <= generations@.len(),
            ram.wf(),
            pages_ok(pages@),
            forall|k: int|
                0 <= k < i ==> page_fresh(ram@, (#[trigger] pages@[k]).1, generations@[k]),
        decreases pages@.len() - i,
    {
        let physical: u64 = pages[i].1;
        assert(pages@[i as int].1 >= RAM_BASE);
        let page: u64 = (physical - RAM_BASE) / 0x1000;
        let fresh: bool = ram.page_marked(page) && !ram.is_dirty(page) && (
        match ram.page_generation(page) {
            Some(generation) => generation == generations[i],
            None => false,
        });
        assert(fresh == page_fresh(ram@, pages@[i as int].1, generations@[i as int]));
        if !fresh {
            return false;
        }
        i = i + 1;
    }
    true
}

fn check_members(ram: &JitPageState, batch: &PendingBatch) -> (fresh: bool)
    requires
        ram.wf(),
        forall|k: int| 0 <= k < batch.members@.len() ==> pages_ok((#[trigger] batch.members@[k]).pages@),
    ensures
        fresh == forall|k: int|
            0 <= k < batch.members@.len() ==> pages_fresh(
                ram@,
                (#[trigger] batch.members@[k]).pages@,
                batch.members@[k].page_generations@,
            ),
{
    let mut i: usize = 0;
    while i < batch.members.len()
        invariant
            i <= batch.members@.len(),
            ram.wf(),
            forall|k: int|
                0 <= k < batch.members@.len() ==> pages_ok((#[trigger] batch.members@[k]).pages@),
            forall|k: int|
                0 <= k < i ==> pages_fresh(
                    ram@,
                    (#[trigger] batch.members@[k]).pages@,
                    batch.members@[k].page_generations@,
                ),
        decreases batch.members@.len() - i,
    {
        let member = &batch.members[i];
        assert(pages_ok(batch.members@[i as int].pages@));
        if !check_pages(ram, member.pages.as_slice(), member.page_generations.as_slice()) {
            return false;
        }
        i = i + 1;
    }
    true
}

/// What was handed to the host is about guest code in RAM, and every body of a
/// page module comes from its one page.
pub open spec fn kind_ok(kind: PendingJitKind) -> bool {
    match kind {
        PendingJitKind::Block(block) => pages_ok(block.pages@),
        PendingJitKind::Batch(batch) => forall|k: int|
            0 <= k < batch.members@.len() ==> pages_ok((#[trigger] batch.members@[k]).pages@) && (
            batch.page_module is Some ==> batch.members@[k].pages@.len() <= 1),
        PendingJitKind::Region(region) => pages_ok(region.pages@),
    }
}

/// Whether the code of a compilation is unchanged since it was issued.
pub fn source_fresh(ram: &JitPageState, kind: &PendingJitKind) -> (fresh: bool)
    requires
        ram.wf(),
        kind_ok(*kind),
    ensures
        fresh == kind_fresh(ram@, *kind),
{
    match kind {
        PendingJitKind::Block(block) => check_pages(
            ram,
            block.pages.as_slice(),
            block.page_generations.as_slice(),
        ),
        PendingJitKind::Batch(batch) => check_members(ram, batch),
        PendingJitKind::Region(region) => check_pages(
            ram,
            region.pages.as_slice(),
            region.page_generations.as_slice(),
        ),
    }
}

impl JitView {
    /// Whether no newer compilation has taken the place of this one.
    pub open spec fn still_owns(self, ticket: u64, kind: PendingJitKind) -> bool {
        match kind {
            PendingJitKind::Block(_) => true,
            PendingJitKind::Batch(batch) => batch.page_module is None || self.code.module_pending(
                ticket,
                batch.page_module,
            ),
            PendingJitKind::Region(region) => self.pages.claims.is_current(
                ticket,
                region.aspace,
                region.pages@,
            ),
        }
    }
}

/// What becomes of a compilation that came back.
#[derive(Debug, Clone, Copy, PartialEq, Eq, Structural)]
pub enum Fate {
    /// The host compiled something else.
    Mismatched,
    /// It is from before a reboot, or a newer compilation took its place.
    Superseded,
    /// The host's code store is full.
    Full,
    /// The host could not compile it.
    Failed,
    /// The code was written while it was being compiled.
    Stale,
    /// It is installed.
    Landed,
}

/// What becomes of a compilation that came back.
pub open spec fn fate_of(
    v: JitView,
    ram: JitPages,
    boot_gen: u64,
    p: PendingJit,
    base: i32,
    slot_count: u32,
) -> Fate {
    if p.kind.slots() != slot_count {
        Fate::Mismatched
    } else if p.boot_gen != boot_gen || !v.still_owns(p.ticket, p.kind) {
        Fate::Superseded
    } else if base == JIT_REGISTER_CAPACITY {
        Fate::Full
    } else if base < 0 {
        Fate::Failed
    } else if !kind_fresh(ram, p.kind) {
        Fate::Stale
    } else {
        Fate::Landed
    }
}

impl JitState {
    fn still_owns(&self, ticket: u64, kind: &PendingJitKind) -> (r: bool)
        ensures
            r == self@.still_owns(ticket, *kind),
    {
        match kind {
            PendingJitKind::Block(_) => true,
            PendingJitKind::Batch(batch) => self.code.page_module_pending_is_current(
                ticket,
                batch,
            ),
            PendingJitKind::Region(region) => self.pages.pending_superblock_is_current(
                ticket,
                region.aspace,
                region.pages.as_slice(),
            ),
        }
    }

    /// What becomes of a compilation that came back. A page that was written
    /// while it was compiled makes the result stale; the write generation closes
    /// the window in which a page could turn dirty, be drained and be marked
    /// again unnoticed.
    pub fn fate(
        &self,
        ram: &JitPageState,
        boot_gen: u64,
        p: &PendingJit,
        base: i32,
        slot_count: u32,
    ) -> (fate: Fate)
        requires
            ram.wf(),
            kind_ok(p.kind),
        ensures
            fate == fate_of(self@, ram@, boot_gen, *p, base, slot_count),
    {
        if p.slot_count() as u64 != slot_count as u64 {
            Fate::Mismatched
        } else if p.boot_gen != boot_gen || !self.still_owns(p.ticket, &p.kind) {
            Fate::Superseded
        } else if base == JIT_REGISTER_CAPACITY {
            Fate::Full
        } else if base < 0 {
            Fate::Failed
        } else if !source_fresh(ram, &p.kind) {
            Fate::Stale
        } else {
            Fate::Landed
        }
    }
}

// ---- installing ----------------------------------------------------------

/// Where a virtual page is among pages, from the `i`-th on.
pub open spec fn page_at(pages: Seq<PagePair>, va: u64, i: int) -> Option<int>
    decreases pages.len() - i,
{
    if i < 0 || i >= pages.len() {
        None
    } else if pages[i].0 == va {
        Some(i)
    } else {
        page_at(pages, va, i + 1)
    }
}

/// Where a virtual page is among pages.
pub fn find_page(pages: &[PagePair], va: u64) -> (at: Option<usize>)
    ensures
        match (at, page_at(pages@, va, 0)) {
            (Some(a), Some(b)) => a == b && a < pages@.len() && pages@[a as int].0 == va,
            (None, None) => true,
            _ => false,
        },
{
    let mut i: usize = 0;
    while i < pages.len()
        invariant
            i <= pages@.len(),
            page_at(pages@, va, 0) == page_at(pages@, va, i as int),
        decreases pages@.len() - i,
    {
        if pages[i].0 == va {
            return Some(i);
        }
        i = i + 1;
    }
    None
}

/// An entry of a region function, or code that cannot be compiled: a block
/// without a mix.
pub open spec fn plain(idx: i32, pa: u64, stamp: u64) -> JitBlock {
    JitBlock {
        fp: false,
        idx,
        n: 0,
        mix: [0, 0, 0, 0, 0],
        mem: [0, 0, 0, 0, 0, 0, 0, 0, 0, 0],
        control: [0, 0, 0],
        alu: [0, 0, 0, 0, 0],
        pa,
        last_used: stamp,
    }
}

/// An entry of a region function, or code that cannot be compiled.
pub fn plain_block(idx: i32, pa: u64, stamp: u64) -> (block: JitBlock)
    ensures
        block == plain(idx, pa, stamp),
{
    JitBlock {
        fp: false,
        idx,
        n: 0,
        mix: [0, 0, 0, 0, 0],
        mem: [0, 0, 0, 0, 0, 0, 0, 0, 0, 0],
        control: [0, 0, 0],
        alu: [0, 0, 0, 0, 0],
        pa,
        last_used: stamp,
    }
}

/// Whether an individual block takes the place of the entry at its pc: of a
/// region function's entry only where it is a long trace that does not touch the
/// FP file.
pub open spec fn replaces(
    cache: Map<u64, Option<JitBlock>>,
    pc: u64,
    block: JitBlock,
    keep: u32,
) -> bool {
    ||| !(cache.contains_key(pc) && (cache[pc] matches Some(current) && current.n == 0))
    ||| is_long(block, keep)
}

/// Whether a trace is long enough to keep its pc from a region function: it
/// already amortizes its dispatch. Where the least length is zero, functions
/// claim everything.
pub open spec fn is_long(block: JitBlock, keep: u32) -> bool {
    keep != 0 && !block.fp && block.n >= keep
}

fn long_trace(block: JitBlock, keep: u32) -> (r: bool)
    ensures
        r == is_long(block, keep),
{
    keep != 0 && !block.fp && block.n >= keep
}

/// Whether an individual block takes the place of the entry at its pc.
pub fn block_should_replace_region(
    current: Option<Option<JitBlock>>,
    block: JitBlock,
    keep: u32,
) -> (r: bool)
    ensures
        r == (!(current matches Some(Some(c)) && c.n == 0) || is_long(block, keep)),
{
    let region: bool = match current {
        Some(Some(current)) => current.n == 0,
        _ => false,
    };
    !region || long_trace(block, keep)
}

impl CodeCache {
    /// Note the pages that the code of a slot that nothing calls yet was
    /// compiled over.
    fn set_region(&mut self, idx: i32, pages: Vec<PagePair>)
        requires
            old(self).wf(),
            idx >= 0,
            pages_ok(pages@),
            old(self)@.uses(idx) =~= Set::empty(),
        ensures
            final(self).wf(),
            final(self)@ == (CodeView {
                regions: old(self)@.regions.insert(idx, pages@),
                ..old(self)@
            }),
    {
        let ghost was = self@;
        self.regions.insert(idx, pages);
        proof {
            let now = self@;
            assert(now.regions =~= was.regions.insert(idx, pages@));
            assert forall|page: u64, pc: u64| #[trigger]
                self.page_blocks.has(page, pc) <==> backs_in(now.cache, now.regions, page, pc) by {
                assert(self.page_blocks.has(page, pc) <==> backs_in(
                    was.cache,
                    was.regions,
                    page,
                    pc,
                ));
                if was.cache.contains_key(pc) && was.cache[pc] is Some {
                    let block = was.cache[pc]->0;
                    if block.idx == idx {
                        assert(slot_in(was.cache, pc) == Some(idx));
                        assert(was.uses(idx).contains(pc));
                    }
                    assert(pages_in(now.regions, block) == pages_in(was.regions, block));
                }
            }
            assert forall|i: i32, k: int|
                now.regions.contains_key(i) && 0 <= k < now.regions[i].len() implies (
            #[trigger] now.regions[i][k]).1 >= RAM_BASE by {
                if i != idx {
                    assert(was.regions.contains_key(i));
                    assert(was.regions[i][k].1 >= RAM_BASE);
                }
            }
        }
    }

    /// Start the exit profile of a region function.
    fn set_exits(&mut self, idx: i32, exits: RegionExits)
        ensures
            old(self).wf() ==> final(self).wf(),
            final(self)@ == (CodeView {
                exits: old(self)@.exits.insert(idx, exits@),
                ..old(self)@
            }),
    {
        let ghost was = self@;
        self.region_exits.insert(idx, exits);
        assert(self@.exits =~= was.exits.insert(idx, exits@));
    }
}

impl JitView {
    /// Whether a region function takes the place of the entry at `pc`: not of a
    /// page module's entry, not off its pages, and not of a trace long enough to
    /// keep.
    pub open spec fn region_claims(
        self,
        aspace: u64,
        pages: Seq<PagePair>,
        pc: u64,
        keep: u32,
    ) -> bool {
        &&& !self.code.page_module_owns(aspace, pc)
        &&& page_at(pages, page_base(pc), 0) is Some
        &&& !(self.code.cache.contains_key(pc) && (self.code.cache[pc] matches Some(b) && b.n != 0
            && is_long(b, keep)))
    }

    /// The state under the next stamp.
    pub open spec fn stamped(self) -> JitView {
        JitView { code: CodeView { stamp: bumped(self.code.stamp), ..self.code }, ..self }
    }

    /// The state with an entry installed: the dispatch line of the entry before
    /// is gone.
    pub open spec fn installed(self, pc: u64, block: JitBlock) -> JitView {
        let with = self.inserted(pc, Some(block));
        JitView { lines: with.lines.without_line(pc), ..with }
    }

    /// The state after one entry of a region function came.
    pub open spec fn with_region_entry(
        self,
        idx: i32,
        aspace: u64,
        pages: Seq<PagePair>,
        pc: u64,
        keep: u32,
    ) -> JitView {
        if self.region_claims(aspace, pages, pc, keep) {
            let pa = (pages[page_at(pages, page_base(pc), 0)->0].1 + pc % 0x1000) as u64;
            self.stamped().installed(pc, plain(idx, pa, bumped(self.code.stamp)))
        } else {
            self
        }
    }

    /// The state after the first `n` entries of a region function came.
    pub open spec fn with_region_entries(
        self,
        idx: i32,
        aspace: u64,
        pages: Seq<PagePair>,
        pcs: Seq<u64>,
        keep: u32,
        n: int,
    ) -> JitView
        decreases n,
    {
        if n <= 0 {
            self
        } else {
            self.with_region_entries(idx, aspace, pages, pcs, keep, n - 1).with_region_entry(
                idx,
                aspace,
                pages,
                pcs[n - 1],
                keep,
            )
        }
    }

    /// The state after a region function came.
    pub open spec fn with_region(self, idx: i32, region: PendingRegion, keep: u32) -> JitView {
        self.region_started(idx, region).with_region_entries(
            idx,
            region.aspace,
            region.pages@,
            region.entries@,
            keep,
            region.entries@.len() as int,
        )
    }
}

impl JitView {
    /// How many of the first `n` entries a region function takes, and how many
    /// of those are individual blocks before.
    pub open spec fn region_counts(
        self,
        idx: i32,
        aspace: u64,
        pages: Seq<PagePair>,
        pcs: Seq<u64>,
        keep: u32,
        n: int,
    ) -> (int, int)
        decreases n,
    {
        if n <= 0 {
            (0, 0)
        } else {
            let (installed, replaced) = self.region_counts(idx, aspace, pages, pcs, keep, n - 1);
            let now = self.with_region_entries(idx, aspace, pages, pcs, keep, n - 1);
            let pc = pcs[n - 1];
            if !now.region_claims(aspace, pages, pc, keep) {
                (installed, replaced)
            } else if now.code.cache.contains_key(pc) && (now.code.cache[pc] matches Some(b) && b.n
                != 0) {
                (installed + 1, replaced + 1)
            } else {
                (installed + 1, replaced)
            }
        }
    }

    /// The state when a region function is about to be installed: its pages and
    /// its exit profile are noted.
    pub open spec fn region_started(self, idx: i32, region: PendingRegion) -> JitView {
        JitView {
            code: CodeView {
                regions: if region.pages@.len() > 1 {
                    self.code.regions.insert(idx, region.pages@)
                } else {
                    self.code.regions
                },
                exits: self.code.exits.insert(
                    idx,
                    ExitsView {
                        aspace: region.aspace,
                        lead: region.lead,
                        pages: region.pages@,
                        total: 0,
                        targets: Seq::empty(),
                        samples: 0,
                        stay_sum: 0,
                        entries: region.entries@,
                    },
                ),
                ..self.code
            },
            ..self
        }
    }
}

/// How many entries a region function took, and how many of those were
/// individual blocks before.
#[derive(Debug, Clone, Copy, PartialEq, Eq, Structural)]
pub struct RegionCounts {
    pub installed: u64,
    pub replaced: u64,
}

/// What the landing of a compilation counts for.
#[derive(Debug, Clone, Copy, PartialEq, Eq, Structural)]
pub struct LandingCounts {
    pub regions: u64,
    /// Entries that a region installed, and those among them that took the place
    /// of a trace.
    pub installed: u64,
    pub replaced: u64,
    /// Whether a block counts against the superblock of its page.
    pub missed: bool,
    pub batches: u64,
    pub members: u64,
    pub page_module: bool,
    /// Whether a build is lost because its code was written meanwhile.
    pub stale: bool,
}

impl LandingCounts {
    /// Nothing was installed.
    pub open spec fn nothing() -> LandingCounts {
        LandingCounts {
            regions: 0,
            installed: 0,
            replaced: 0,
            missed: false,
            batches: 0,
            members: 0,
            page_module: false,
            stale: false,
        }
    }

    /// Nothing was installed.
    pub fn none() -> (c: LandingCounts)
        ensures
            c == LandingCounts::nothing(),
    {
        LandingCounts {
            regions: 0,
            installed: 0,
            replaced: 0,
            missed: false,
            batches: 0,
            members: 0,
            page_module: false,
            stale: false,
        }
    }
}

impl JitState {
    /// Install an entry and forget the dispatch line of the one before.
    fn install(&mut self, pc: u64, block: JitBlock) -> (previous: Option<Option<JitBlock>>)
        requires
            old(self).wf(),
            block.idx >= 0,
            old(self)@.code.slot_owner.contains_key(block.idx),
        ensures
            final(self).wf(),
            final(self)@ == old(self)@.installed(pc, block),
            previous == if old(self)@.code.cache.contains_key(pc) {
                Some(old(self)@.code.cache[pc])
            } else {
                None
            },
    {
        let previous = self.cache_insert(pc, Some(block));
        self.lines.clear_line(pc);
        previous
    }

    fn next_stamp(&mut self) -> (stamp: u64)
        requires
            old(self).wf(),
        ensures
            final(self).wf(),
            stamp == bumped(old(self)@.code.stamp),
            final(self)@ == (JitView {
                code: CodeView { stamp, ..old(self)@.code },
                ..old(self)@
            }),
    {
        self.code.next_use_stamp()
    }

    /// Install one entry of a region function, where it takes the place of what
    /// is there. Says whether it did, and whether it replaced an individual
    /// block.
    fn install_region_entry(
        &mut self,
        idx: i32,
        aspace: u64,
        pages: &[PagePair],
        pc: u64,
        keep: u32,
    ) -> (r: (bool, bool))
        requires
            old(self).wf(),
            idx >= 0,
            pages_ok(pages@),
            old(self)@.code.slot_owner.contains_key(idx),
        ensures
            final(self).wf(),
            final(self)@.code.slot_owner.contains_key(idx),
            r.0 == old(self)@.region_claims(aspace, pages@, pc, keep),
            r.1 == (r.0 && old(self)@.code.cache.contains_key(pc) && (
            old(self)@.code.cache[pc] matches Some(b) && b.n != 0)),
            final(self)@ == old(self)@.with_region_entry(idx, aspace, pages@, pc, keep),
    {
        if self.code.page_module_owns_cached_entry(aspace, pc) {
            return (false, false);
        }
        let at: usize = match find_page(pages, page_of(pc)) {
            Some(at) => at,
            None => {
                return (false, false);
            },
        };
        // A long trace block keeps its pc: it already amortizes its dispatch,
        // and the function entry would trade that for a register-union load per
        // visit.
        match self.code.entry(pc) {
            Some(Some(b)) => {
                if b.n != 0 && long_trace(b, keep) {
                    return (false, false);
                }
            },
            _ => {},
        }
        assert(pages@[at as int].1 % 0x1000 == 0);
        let pa: u64 = pages[at].1 + pc % 0x1000;
        let stamp: u64 = self.next_stamp();
        let ghost mid = self@;
        let block: JitBlock = plain_block(idx, pa, stamp);
        let previous = self.install(pc, block);
        proof {
            lemma_insert_keeps_slot(mid.code, pc, block);
        }
        let replaced: bool = match previous {
            Some(Some(b)) => b.n != 0,
            _ => false,
        };
        (true, replaced)
    }
}

impl JitState {
    /// Install a region function under a slot that nothing calls yet.
    pub fn land_region(&mut self, policy: &JitPolicy, idx: i32, region: &PendingRegion) -> (counts:
        RegionCounts)
        requires
            old(self).wf(),
            idx >= 0,
            pages_ok(region.pages@),
            old(self)@.code.slot_owner.contains_key(idx),
            old(self)@.code.uses(idx) =~= Set::empty(),
        ensures
            final(self).wf(),
            final(self)@ == old(self)@.with_region(idx, *region, policy.trace_keep_min),
            final(self)@.code.slot_owner.contains_key(idx),
            (counts.installed as int, counts.replaced as int) == old(self)@.region_started(
                idx,
                *region,
            ).region_counts(
                idx,
                region.aspace,
                region.pages@,
                region.entries@,
                policy.trace_keep_min,
                region.entries@.len() as int,
            ),
    {
        let ghost was = self@;
        if region.pages.len() > 1 {
            self.code.set_region(idx, copied_pages(region.pages.as_slice()));
        }
        // Start the exit profile that drives measured extension/demotion.
        let targets: Vec<(u64, u32)> = Vec::new();
        assert(targets@ =~= Seq::empty());
        self.code.set_exits(
            idx,
            RegionExits {
                aspace: region.aspace,
                lead: region.lead,
                pages: copied_pages(region.pages.as_slice()),
                total: 0,
                targets,
                samples: 0,
                stay_sum: 0,
                entries: copied(region.entries.as_slice()),
            },
        );
        let ghost started = self@;
        let keep: u32 = policy.trace_keep_min;
        let (mut installed, mut replaced): (u64, u64) = (0, 0);
        let mut i: usize = 0;
        while i < region.entries.len()
            invariant
                i <= region.entries.len(),
                idx >= 0,
                keep == policy.trace_keep_min,
                pages_ok(region.pages@),
                self.wf(),
                self@.code.slot_owner.contains_key(idx),
                self@ == started.with_region_entries(
                    idx,
                    region.aspace,
                    region.pages@,
                    region.entries@,
                    keep,
                    i as int,
                ),
                (installed as int, replaced as int) == started.region_counts(
                    idx,
                    region.aspace,
                    region.pages@,
                    region.entries@,
                    keep,
                    i as int,
                ),
                installed <= i,
                replaced <= i,
            decreases region.entries@.len() - i,
        {
            let (took, was_block) = self.install_region_entry(
                idx,
                region.aspace,
                region.pages.as_slice(),
                region.entries[i],
                keep,
            );
            if took {
                installed = installed + 1;
            }
            if was_block {
                replaced = replaced + 1;
            }
            i = i + 1;
        }
        RegionCounts { installed, replaced }
    }
}

/// Putting an entry in place never releases the slot that it calls.
proof fn lemma_insert_keeps_slot(v: CodeView, pc: u64, block: JitBlock)
    requires
        block.idx >= 0,
        v.slot_owner.contains_key(block.idx),
    ensures
        v.inserted(pc, Some(block)).slot_owner.contains_key(block.idx),
        v.inserted(pc, Some(block)).cache == v.cache.insert(pc, Some(block)),
        forall|idx: i32|
            v.slot_owner.contains_key(idx) && v.uses(idx) =~= Set::empty() ==> #[trigger] v.inserted(
                pc,
                Some(block),
            ).slot_owner.contains_key(idx),
{
    assert forall|idx: i32|
        v.slot_owner.contains_key(idx) && v.uses(idx) =~= Set::empty() implies #[trigger] v.inserted(
        pc,
        Some(block),
    ).slot_owner.contains_key(idx) by {
        if v.slot_at(pc) == Some(idx) {
            assert(v.uses(idx).contains(pc));
        }
    }
}

// ---- blocks and batches --------------------------------------------------

/// Discovery after the first `n` seeds of a block were entered.
pub open spec fn with_seeds(pages: DiscoveryView, aspace: u64, seeds: Seq<u64>, n: int) -> DiscoveryView
    decreases n,
{
    if n <= 0 {
        pages
    } else {
        let before = with_seeds(pages, aspace, seeds, n - 1);
        DiscoveryView {
            entries: entered(before.entries, (aspace, page_base(seeds[n - 1])), seeds[n - 1]),
            ..before
        }
    }
}

impl JitView {
    /// Whether an individual block takes the place of the entry at its pc. One
    /// that is `forced` does in any case.
    pub open spec fn block_claims(self, block: PendingView, keep: u32, forced: bool) -> bool {
        forced || (!self.code.page_module_owns(block.aspace, block.pc) && replaces(
            self.code.cache,
            block.pc,
            block.block,
            keep,
        ))
    }

    /// The state after an individual block came under a slot.
    pub open spec fn with_block(
        self,
        policy: JitPolicy,
        idx: i32,
        block: PendingView,
        forced: bool,
    ) -> JitView {
        if !self.block_claims(block, policy.trace_keep_min, forced) {
            self
        } else {
            let stamped = self.stamped();
            let noted = JitView {
                code: CodeView {
                    regions: if block.pages.len() > 1 {
                        stamped.code.regions.insert(idx, block.pages)
                    } else {
                        stamped.code.regions
                    },
                    ..stamped.code
                },
                pages: if policy.superblock {
                    with_seeds(
                        self.pages,
                        block.aspace,
                        block.seeds,
                        block.seeds.len() as int,
                    )
                } else {
                    self.pages
                },
                ..stamped
            };
            noted.installed(
                block.pc,
                JitBlock { idx, last_used: bumped(self.code.stamp), ..block.block },
            )
        }
    }

    /// Whether a landed block counts as one that the page function misses.
    pub open spec fn counts_as_missed(self, policy: JitPolicy, block: PendingView) -> bool {
        &&& self.block_claims(block, policy.trace_keep_min, false)
        &&& block.missed_superblock
        &&& !(self.code.cache.contains_key(block.pc) && (self.code.cache[block.pc] matches Some(c)
            && c.n == 0))
    }

    /// The slot of the `k`-th member of a batch.
    pub open spec fn member_slot(self, base: i32, page_module: bool, k: int) -> i32 {
        if page_module {
            base
        } else {
            (base + k) as i32
        }
    }

    /// The state after the first `n` members of a batch came.
    pub open spec fn with_members(
        self,
        policy: JitPolicy,
        base: i32,
        batch: PendingBatch,
        n: int,
    ) -> JitView
        decreases n,
    {
        if n <= 0 {
            self
        } else {
            self.with_members(policy, base, batch, n - 1).with_block(
                policy,
                self.member_slot(base, batch.page_module is Some, n - 1),
                batch.members@[n - 1]@,
                batch.page_module is Some,
            )
        }
    }
}

/// Slots that have an owner and that nothing calls.
pub open spec fn slots_ready(v: CodeView, base: int, from: int, to: int) -> bool {
    forall|k: int|
        from <= k < to ==> {
            &&& v.slot_owner.contains_key(#[trigger] ((base + k) as i32))
            &&& v.uses((base + k) as i32) =~= Set::empty()
        }
}

impl JitState {
    fn enter_seeds(&mut self, aspace: u64, seeds: &[u64])
        requires
            old(self).wf(),
        ensures
            final(self).wf(),
            final(self)@ == (JitView {
                pages: with_seeds(old(self)@.pages, aspace, seeds@, seeds@.len() as int),
                ..old(self)@
            }),
    {
        let ghost was = self@;
        let mut i: usize = 0;
        while i < seeds.len()
            invariant
                i <= seeds@.len(),
                self.wf(),
                self@ == (JitView {
                    pages: with_seeds(was.pages, aspace, seeds@, i as int),
                    ..was
                }),
            decreases seeds@.len() - i,
        {
            self.pages.record_page_entry(aspace, seeds[i]);
            i = i + 1;
        }
    }

    /// Install an individual block under a slot, where it takes the place of
    /// what is there. Returns what was there, if it did.
    fn install_block(&mut self, policy: &JitPolicy, idx: i32, p: &PendingBlock, forced: bool) -> (r:
        Option<Option<Option<JitBlock>>>)
        requires
            old(self).wf(),
            idx >= 0,
            pages_ok(p.pages@),
            old(self)@.code.slot_owner.contains_key(idx),
            p.pages@.len() > 1 ==> old(self)@.code.uses(idx) =~= Set::empty(),
        ensures
            final(self).wf(),
            final(self)@ == old(self)@.with_block(*policy, idx, p@, forced),
            r is Some <==> old(self)@.block_claims(p@, policy.trace_keep_min, forced),
            r matches Some(previous) ==> previous == if old(self)@.code.cache.contains_key(p.pc) {
                Some(old(self)@.code.cache[p.pc])
            } else {
                None
            },
            final(self)@.code.slot_owner.contains_key(idx),
            forall|i: i32|
                i != idx && old(self)@.code.slot_owner.contains_key(i) && old(self)@.code.uses(i)
                    =~= Set::empty() ==> #[trigger] final(self)@.code.slot_owner.contains_key(i)
                    && final(self)@.code.uses(i) =~= Set::empty(),
    {
        let ghost was = self@;
        if !forced {
            if self.code.page_module_owns_cached_entry(p.aspace, p.pc) {
                return None;
            }
            if !block_should_replace_region(
                self.code.entry(p.pc),
                p.block,
                policy.trace_keep_min,
            ) {
                return None;
            }
        }
        let stamp: u64 = self.next_stamp();
        let block = JitBlock { idx, last_used: stamp, ..p.block };
        if p.pages.len() > 1 {
            self.code.set_region(idx, copied_pages(p.pages.as_slice()));
        }
        if policy.superblock {
            self.enter_seeds(p.aspace, p.seeds.as_slice());
        }
        let ghost mid = self@;
        let previous = self.install(p.pc, block);
        proof {
            lemma_insert_keeps_slot(mid.code, p.pc, block);
            assert forall|i: i32|
                i != idx && was.code.slot_owner.contains_key(i) && was.code.uses(i)
                    =~= Set::empty() implies #[trigger] self@.code.slot_owner.contains_key(i)
                && self@.code.uses(i) =~= Set::empty() by {
                assert(mid.code.uses(i) =~= Set::empty());
                assert forall|x: u64| !self@.code.uses(i).contains(x) by {
                    if x != p.pc {
                        assert(slot_in(self@.code.cache, x) == slot_in(mid.code.cache, x));
                        assert(!mid.code.uses(i).contains(x));
                    }
                }
            }
        }
        Some(previous)
    }

    /// Install a block under a slot that nothing calls yet. Says whether it
    /// counts as one that the page function misses.
    pub fn land_block(&mut self, policy: &JitPolicy, idx: i32, p: &PendingBlock) -> (missed: bool)
        requires
            old(self).wf(),
            idx >= 0,
            pages_ok(p.pages@),
            old(self)@.code.slot_owner.contains_key(idx),
            old(self)@.code.uses(idx) =~= Set::empty(),
        ensures
            final(self).wf(),
            missed == old(self)@.counts_as_missed(*policy, p@),
            ({
                let with = old(self)@.with_block(*policy, idx, p@, false);
                let key = (p.aspace, page_base(p.pc));
                final(self)@ == if missed {
                    JitView {
                        pages: DiscoveryView {
                            missed: with.pages.missed.insert(
                                key,
                                if with.pages.missed_of(key) == u32::MAX {
                                    u32::MAX
                                } else {
                                    (with.pages.missed_of(key) + 1) as u32
                                },
                            ),
                            ..with.pages
                        },
                        ..with
                    }
                } else {
                    with
                }
            }),
            final(self)@.code.slot_owner.contains_key(idx),
    {
        match self.install_block(policy, idx, p, false) {
            None => false,
            Some(previous) => {
                let over_region: bool = match previous {
                    Some(Some(current)) => current.n == 0,
                    _ => false,
                };
                if p.missed_superblock && !over_region {
                    self.pages.note_missed((p.aspace, page_of(p.pc)));
                    true
                } else {
                    false
                }
            },
        }
    }

    /// Install the members of a batch under its slots, which nothing calls yet.
    pub fn land_batch(&mut self, policy: &JitPolicy, base: i32, batch: &PendingBatch)
        requires
            old(self).wf(),
            base >= 0,
            kind_ok(PendingJitKind::Batch(*batch)),
            if batch.page_module is Some {
                old(self)@.code.slot_owner.contains_key(base)
            } else {
                base + batch.members@.len() <= 0x8000_0000 && slots_ready(
                    old(self)@.code,
                    base as int,
                    0,
                    batch.members@.len() as int,
                )
            },
        ensures
            final(self).wf(),
            final(self)@ == old(self)@.with_members(
                *policy,
                base,
                *batch,
                batch.members@.len() as int,
            ),
    {
        let ghost was = self@;
        let page_module: bool = batch.page_module.is_some();
        let mut i: usize = 0;
        while i < batch.members.len()
            invariant
                i <= batch.members@.len(),
                page_module == batch.page_module is Some,
                base >= 0,
                kind_ok(PendingJitKind::Batch(*batch)),
                self.wf(),
                self@ == was.with_members(*policy, base, *batch, i as int),
                page_module ==> self@.code.slot_owner.contains_key(base),
                !page_module ==> base + batch.members@.len() <= 0x8000_0000 && slots_ready(
                    self@.code,
                    base as int,
                    i as int,
                    batch.members@.len() as int,
                ),
            decreases batch.members@.len() - i,
        {
            assert(pages_ok(batch.members@[i as int].pages@));
            let mut idx: i32 = base;
            if !page_module {
                idx = base + i as i32;
                assert(idx == (base + i as int) as i32);
            }
            let ghost before = self@.code;
            self.install_block(policy, idx, &batch.members[i], page_module);
            proof {
                if !page_module {
                    let n = batch.members@.len() as int;
                    assert forall|k: int| i + 1 <= k < n implies {
                        &&& self@.code.slot_owner.contains_key(#[trigger] ((base + k) as i32))
                        &&& self@.code.uses((base + k) as i32) =~= Set::empty()
                    } by {
                        assert(before.slot_owner.contains_key((base + k) as i32));
                        assert((base + k) as i32 != idx);
                    }
                }
            }
            i = i + 1;
        }
    }
}

// ---- completion ----------------------------------------------------------

/// The coverage after the first `n` members of a batch are no longer on their
/// way.
pub open spec fn members_uncovered(
    coverage: Map<(u64, u64), u16>,
    batch: PendingBatch,
    n: int,
) -> Map<(u64, u64), u16>
    decreases n,
{
    if n <= 0 {
        coverage
    } else {
        let block = batch.members@[n - 1]@;
        uncovered(
            members_uncovered(coverage, batch, n - 1),
            block.aspace,
            block.trace_pcs,
            block.trace_pcs.len() as int,
        )
    }
}

impl CodeView {
    /// The state after the compilation of a page module ended without one.
    pub open spec fn module_ended(self, ticket: u64, batch: PendingBatch, failed: bool) -> CodeView {
        if !self.module_pending(ticket, batch.page_module) {
            self
        } else {
            let key = batch.page_module->0;
            let state = self.modules[key];
            if failed {
                self.module_failed(key, state->Pending_source, state->Pending_prior)
            } else {
                self.module_cancelled(key, state->Pending_prior)
            }
        }
    }
}

impl JitView {
    /// The state after a compilation is no longer on its way.
    pub open spec fn arrived(self, kind: PendingJitKind) -> JitView {
        JitView {
            coverage: match kind {
                PendingJitKind::Block(block) => uncovered(
                    self.coverage,
                    block.aspace,
                    block.trace_pcs@,
                    block.trace_pcs@.len() as int,
                ),
                PendingJitKind::Batch(batch) => members_uncovered(
                    self.coverage,
                    batch,
                    batch.members@.len() as int,
                ),
                PendingJitKind::Region(_) => self.coverage,
            },
            ..self
        }
    }

    /// The state after a compilation came to nothing: pages that it had claimed
    /// are as they were before, and so are page modules. One that `failed` is not
    /// tried again from the same code.
    pub open spec fn given_up(self, ticket: u64, kind: PendingJitKind, failed: bool) -> JitView {
        match kind {
            PendingJitKind::Block(_) => self,
            PendingJitKind::Batch(batch) => JitView {
                code: self.code.module_ended(ticket, batch, failed),
                ..self
            },
            PendingJitKind::Region(region) => JitView {
                pages: DiscoveryView {
                    claims: self.pages.claims.finished(
                        ticket,
                        region.aspace,
                        region.pages@,
                        false,
                        region.pages@.len() as int,
                    ),
                    ..self.pages
                },
                ..self
            },
        }
    }

    /// The state after slots that nothing can use were taken over and released.
    pub open spec fn adopted(self, base: int, n: int) -> JitView {
        JitView {
            code: CodeView { table: self.code.table.adopted(base, n), ..self.code },
            ..self
        }
    }

    /// Whether `now` is this state after the slots of a module that nothing
    /// calls were released.
    pub open spec fn settled(self, now: JitView, owner: JitOwnerId) -> bool {
        &&& now == (JitView { code: now.code, ..self })
        &&& now.code.cache == self.code.cache
        &&& self.code.stripped(
            now.code,
            Set::new(
                |idx: i32|
                    self.code.slots_of(owner).contains(idx) && self.code.uses(idx)
                        =~= Set::empty(),
            ),
            owner,
            false,
        )
    }

    /// The state after a module came with `n` slots from `base` on.
    pub open spec fn with_module(self, owner: JitOwnerId, base: i32, n: int) -> JitView {
        JitView {
            code: self.code.with_module(owner, slot_run(base, n)),
            ..self
        }
    }

    /// The state after a block came and was counted as missed where it is.
    pub open spec fn block_landed(self, policy: JitPolicy, idx: i32, block: PendingView) -> JitView {
        let with = self.with_block(policy, idx, block, false);
        let key = (block.aspace, page_base(block.pc));
        if self.counts_as_missed(policy, block) {
            JitView {
                pages: DiscoveryView {
                    missed: with.pages.missed.insert(
                        key,
                        if with.pages.missed_of(key) == u32::MAX {
                            u32::MAX
                        } else {
                            (with.pages.missed_of(key) + 1) as u32
                        },
                    ),
                    ..with.pages
                },
                ..with
            }
        } else {
            with
        }
    }

    /// The state after a region came: its claims are settled, and its entries
    /// installed.
    pub open spec fn region_landed(
        self,
        policy: JitPolicy,
        ticket: u64,
        idx: i32,
        region: PendingRegion,
    ) -> JitView {
        self.region_claimed(ticket, region).with_region(idx, region, policy.trace_keep_min)
    }

    /// The state after the claims of a region that came are settled.
    pub open spec fn region_claimed(self, ticket: u64, region: PendingRegion) -> JitView {
        JitView {
            pages: DiscoveryView {
                claims: self.pages.claims.finished(
                    ticket,
                    region.aspace,
                    region.pages@,
                    true,
                    region.pages@.len() as int,
                ),
                ..self.pages
            },
            ..self
        }
    }

    /// What a compilation counts for that is installed in this state.
    pub open spec fn tally_of(
        self,
        policy: JitPolicy,
        ticket: u64,
        base: i32,
        kind: PendingJitKind,
    ) -> LandingCounts {
        match kind {
            PendingJitKind::Block(block) => LandingCounts {
                missed: self.counts_as_missed(policy, block@),
                ..LandingCounts::nothing()
            },
            PendingJitKind::Region(region) => {
                let (installed, replaced) = self.region_claimed(ticket, region).region_started(
                    base,
                    region,
                ).region_counts(
                    base,
                    region.aspace,
                    region.pages@,
                    region.entries@,
                    policy.trace_keep_min,
                    region.entries@.len() as int,
                );
                LandingCounts {
                    regions: 1,
                    installed: installed as u64,
                    replaced: replaced as u64,
                    ..LandingCounts::nothing()
                }
            },
            PendingJitKind::Batch(batch) => LandingCounts {
                batches: 1,
                members: batch.members@.len() as u64,
                page_module: batch.page_module is Some,
                ..LandingCounts::nothing()
            },
        }
    }

    /// Whether `now` is this state, in which the slots are the module's, after
    /// the compilation was installed: first the page module's record, then the
    /// entries, then the module that it replaces goes.
    pub open spec fn landed(
        self,
        now: JitView,
        policy: JitPolicy,
        ticket: u64,
        base: i32,
        kind: PendingJitKind,
    ) -> bool {
        match kind {
            PendingJitKind::Block(block) => self.block_landed(policy, base, block@).settled(
                now,
                ticket,
            ),
            PendingJitKind::Region(region) => self.region_landed(
                policy,
                ticket,
                base,
                region,
            ).settled(now, ticket),
            PendingJitKind::Batch(batch) => if !self.code.module_pending(
                ticket,
                batch.page_module,
            ) {
                self.with_members(policy, base, batch, batch.members@.len() as int).settled(
                    now,
                    ticket,
                )
            } else {
                exists|entries: Seq<u64>, mid: JitView| #[trigger]
                    self.module_installed(mid, policy, ticket, base, batch, entries) && mid.settled(
                        now,
                        ticket,
                    )
            },
        }
    }

    /// Whether `mid` is this state after a page module with these entries was
    /// installed and the module that it replaces is gone.
    pub open spec fn module_installed(
        self,
        mid: JitView,
        policy: JitPolicy,
        ticket: u64,
        base: i32,
        batch: PendingBatch,
        entries: Seq<u64>,
    ) -> bool {
        let key = batch.page_module->0;
        let state = self.code.modules[key];
        let recorded = JitView {
            code: self.code.module_landed(key, state->Pending_source, ticket, entries),
            ..self
        };
        let with = recorded.with_members(policy, base, batch, batch.members@.len() as int);
        &&& is_sorted_set_of(entries, member_pcs(batch))
        &&& match state->Pending_prior {
            Some(live) => if live.owner != ticket {
                with.without_module(mid, live.owner, false)
            } else {
                mid == with
            },
            None => mid == with,
        }
    }
}

/// `n` slots from `base` on.
pub open spec fn slot_run(base: i32, n: int) -> Seq<i32> {
    Seq::new(n as nat, |k: int| (base + k) as i32)
}

/// None of the slots has an owner.
pub open spec fn slots_free(v: CodeView, base: int, n: int) -> bool {
    forall|idx: i32| base <= idx < base + n ==> !(#[trigger] v.slot_owner.contains_key(idx))
}

proof fn lemma_with_slots(v: CodeView, owner: JitOwnerId, base: i32, all: int, n: int)
    requires
        0 <= n <= all,
        base >= 0,
        base + all <= 0x8000_0000,
    ensures
        ({
            let now = v.with_slots(owner, slot_run(base, all), n);
            &&& now.cache == v.cache
            &&& now == (CodeView { slot_owner: now.slot_owner, table: now.table, ..v })
            &&& forall|idx: i32| #[trigger]
                now.slot_owner.contains_key(idx) <==> v.slot_owner.contains_key(idx) || base <= idx
                    < base + n
        }),
    decreases n,
{
    if n > 0 {
        lemma_with_slots(v, owner, base, all, n - 1);
        assert(slot_run(base, all)[n - 1] == (base + n - 1) as i32);
    }
}

proof fn lemma_adopted_live(t: TableView, base: int, n: int, idx: i32)
    requires
        !(base <= idx < base + n),
    ensures
        t.adopted(base, n).live.contains(idx) == t.live.contains(idx),
    decreases n,
{
    if n > 0 {
        lemma_adopted_live(t, base, n - 1, idx);
    }
}

impl JitState {
    /// Note that a compilation is no longer on its way.
    pub fn remove_pending_coverage(&mut self, kind: &PendingJitKind)
        requires
            old(self).wf(),
        ensures
            final(self).wf(),
            final(self)@ == old(self)@.arrived(*kind),
    {
        match kind {
            PendingJitKind::Block(block) => self.remove_confirmed_coverage(block),
            PendingJitKind::Batch(batch) => {
                let ghost was = self@;
                let mut i: usize = 0;
                while i < batch.members.len()
                    invariant
                        i <= batch.members@.len(),
                        self.wf(),
                        self@ == (JitView {
                            coverage: members_uncovered(was.coverage, *batch, i as int),
                            ..was
                        }),
                    decreases batch.members@.len() - i,
                {
                    self.remove_confirmed_coverage(&batch.members[i]);
                    i = i + 1;
                }
            },
            PendingJitKind::Region(_) => {},
        }
    }

    fn give_up(&mut self, ticket: u64, kind: &PendingJitKind, failed: bool)
        requires
            old(self).wf(),
        ensures
            final(self).wf(),
            final(self)@ == old(self)@.given_up(ticket, *kind, failed),
    {
        match kind {
            PendingJitKind::Block(_) => {},
            PendingJitKind::Batch(batch) => {
                let finish: PageModuleFinish = if failed {
                    PageModuleFinish::Failed
                } else {
                    PageModuleFinish::Cancelled
                };
                self.code.finish_pending_page_module(ticket, batch, finish);
            },
            PendingJitKind::Region(region) => {
                self.pages.finish_pending_superblock(
                    ticket,
                    region.aspace,
                    region.pages.as_slice(),
                    false,
                );
            },
        }
    }

    fn adopt(&mut self, base: i32, slot_count: u32)
        requires
            old(self).wf(),
            slots_free(old(self)@.code, base as int, slot_count as int),
        ensures
            final(self).wf(),
            final(self)@ == old(self)@.adopted(base as int, slot_count as int),
    {
        let ghost was = self@;
        self.code.table.adopt(base, slot_count);
        assert forall|idx: i32| #[trigger]
            self@.code.slot_owner.contains_key(idx) implies idx >= 0
            && self@.code.table.live.contains(idx) by {
            assert(was.code.slot_owner.contains_key(idx));
            lemma_adopted_live(was.code.table, base as int, slot_count as int, idx);
        }
        assert(slots_live(self@.code.slot_owner, self@.code.table.live));
        assert(self.code.wf());
        assert(self@ =~= was.adopted(base as int, slot_count as int));
    }

    fn settle(&mut self, owner: JitOwnerId)
        requires
            old(self).wf(),
        ensures
            final(self).wf(),
            old(self)@.settled(final(self)@, owner),
    {
        self.code.retire_unreferenced_slots(owner);
    }

    /// Take in a module with the slots from `base` on.
    fn track(&mut self, owner: JitOwnerId, base: i32, n: u32)
        requires
            old(self).wf(),
            base >= 0,
            n > 0,
            base + n <= 0x8000_0000,
            slots_free(old(self)@.code, base as int, n as int),
            !old(self)@.code.has_slots(owner),
        ensures
            final(self).wf(),
            final(self)@ == old(self)@.with_module(owner, base, n as int),
            final(self)@.code.cache == old(self)@.code.cache,
            final(self)@.code.modules == old(self)@.code.modules,
            slots_ready(final(self)@.code, base as int, 0, n as int),
    {
        let ghost was = self@;
        let mut slots: Vec<i32> = Vec::new();
        let mut i: u32 = 0;
        while i < n
            invariant
                i <= n,
                base >= 0,
                base + n <= 0x8000_0000,
                slots@ == slot_run(base, i as int),
            decreases n - i,
        {
            slots.push((base as i64 + i as i64) as i32);
            i = i + 1;
            assert(slots@ =~= slot_run(base, i as int));
        }
        proof {
            assert(slots@[0] == base);
            assert forall|k: int| 0 <= k < slots@.len() && slots@[k] >= 0 implies
            !was.code.slot_owner.contains_key(#[trigger] slots@[k]) by {
                assert(slots@[k] == base + k);
            }
            lemma_with_slots(was.code, owner, base, n as int, n as int);
        }
        self.code.track_owner(owner, slots.as_slice());
        proof {
            assert forall|k: int| 0 <= k < n implies {
                &&& self@.code.slot_owner.contains_key(#[trigger] ((base + k) as i32))
                &&& self@.code.uses((base + k) as i32) =~= Set::empty()
            } by {
                let idx = (base + k) as i32;
                assert forall|pc: u64| !self@.code.uses(idx).contains(pc) by {
                    if slot_in(was.code.cache, pc) == Some(idx) {
                        assert(was.code.slot_owner.contains_key(idx));
                    }
                }
            }
        }
    }

    fn land(&mut self, policy: &JitPolicy, ticket: u64, base: i32, kind: &PendingJitKind) -> (counts:
        LandingCounts)
        requires
            old(self).wf(),
            base >= 0,
            kind_ok(*kind),
            kind.slots() > 0,
            base + kind.slots() <= 0x8000_0000,
            slots_ready(old(self)@.code, base as int, 0, kind.slots() as int),
        ensures
            final(self).wf(),
            old(self)@.landed(final(self)@, *policy, ticket, base, *kind),
            counts == old(self)@.tally_of(*policy, ticket, base, *kind),
    {
        let ghost was = self@;
        assert((base + 0) as i32 == base);
        match kind {
            PendingJitKind::Block(block) => {
                let missed: bool = self.land_block(policy, base, block);
                self.settle(ticket);
                LandingCounts { missed, ..LandingCounts::none() }
            },
            PendingJitKind::Region(region) => {
                self.pages.finish_pending_superblock(
                    ticket,
                    region.aspace,
                    region.pages.as_slice(),
                    true,
                );
                let counts: RegionCounts = self.land_region(policy, base, region);
                self.settle(ticket);
                LandingCounts {
                    regions: 1,
                    installed: counts.installed,
                    replaced: counts.replaced,
                    ..LandingCounts::none()
                }
            },
            PendingJitKind::Batch(batch) => {
                let ghost pending = was.code.module_pending(ticket, batch.page_module);
                let prior: Option<JitOwnerId> = self.code.finish_pending_page_module(
                    ticket,
                    batch,
                    PageModuleFinish::Landed(ticket),
                );
                let ghost recorded = self@;
                proof {
                    assert forall|k: int| 0 <= k < kind.slots() implies {
                        &&& self@.code.slot_owner.contains_key(#[trigger] ((base + k) as i32))
                        &&& self@.code.uses((base + k) as i32) =~= Set::empty()
                    } by {
                        assert(was.code.slot_owner.contains_key((base + k) as i32));
                    }
                }
                self.land_batch(policy, base, batch);
                match prior {
                    Some(prior) => {
                        if prior != ticket {
                            self.retire_owner(prior, false);
                        }
                    },
                    None => {},
                }
                let ghost mid = self@;
                proof {
                    if pending {
                        let key = batch.page_module->0;
                        let entries = recorded.code.modules[key]->Live_0.entries;
                        assert(was.module_installed(mid, *policy, ticket, base, *batch, entries));
                    }
                }
                self.settle(ticket);
                LandingCounts {
                    batches: 1,
                    members: batch.members.len() as u64,
                    page_module: batch.page_module.is_some(),
                    ..LandingCounts::none()
                }
            },
        }
    }

    /// Take in a compilation that the host hands back under a ticket: `base` is
    /// the first of its slots, or negative where there are none. Returns what
    /// became of it, or nothing where the ticket is not known, and what it counts
    /// for.
    pub fn complete_counted(
        &mut self,
        queue: &mut JitQueue,
        ram: &JitPageState,
        policy: &JitPolicy,
        ticket: u64,
        base: i32,
        slot_count: u32,
    ) -> (r: (Option<Fate>, LandingCounts))
        requires
            old(self).wf(),
            old(queue).wf(),
            ram.wf(),
            completable(old(self)@, old(queue)@, ticket, base, slot_count),
        ensures
            final(self).wf(),
            final(queue).wf(),
            completion(
                old(self)@,
                old(queue)@,
                final(self)@,
                final(queue)@,
                ram@,
                *policy,
                ticket,
                base,
                slot_count,
                r.0,
            ),
            r.1 == counted(old(self)@, old(queue)@, ram@, *policy, ticket, base, slot_count, r.0),
    {
        let p: PendingJit = match queue.take(ticket) {
            None => {
                // The host can finish a compile after a reboot cleared the
                // ticket. Adopt and retire the returned slot so it cannot leak.
                self.adopt(base, slot_count);
                return (None, LandingCounts::none());
            },
            Some(p) => p,
        };
        let fate: Fate = self.fate(ram, queue.boot_generation(), &p, base, slot_count);
        self.remove_pending_coverage(&p.kind);
        let mut counts: LandingCounts = LandingCounts::none();
        match fate {
            Fate::Mismatched => {
                match &p.kind {
                    PendingJitKind::Batch(_) => {
                        self.give_up(ticket, &p.kind, true);
                    },
                    _ => {},
                }
                self.adopt(base, slot_count);
            },
            Fate::Superseded => {
                // A newer overlapping build owns at least one page. The older
                // module cannot install a coherent region, but it still releases
                // any non-overlapping claims that were not superseded.
                counts.stale = base >= 0 && p.boot_gen == queue.boot_generation() && !source_fresh(
                    ram,
                    &p.kind,
                );
                self.give_up(ticket, &p.kind, false);
                self.adopt(base, slot_count);
            },
            Fate::Full => {
                self.give_up(ticket, &p.kind, false);
                queue.note_capacity();
                // One owner is enough to make the next registration progress.
                // Larger bursts reclaim incrementally and cannot evict a full
                // working set in one long execution slice before the host can
                // reuse the first slot.
                self.evict_cold_owner();
            },
            Fate::Failed => {
                self.give_up(ticket, &p.kind, true);
            },
            Fate::Stale => {
                counts.stale = match &p.kind {
                    PendingJitKind::Region(_) => true,
                    _ => false,
                };
                self.track(ticket, base, slot_count);
                self.give_up(ticket, &p.kind, false);
                self.settle(ticket);
            },
            Fate::Landed => {
                match &p.kind {
                    PendingJitKind::Batch(batch) => {
                        if batch.page_module.is_none() {
                            queue.publish_base(batch.cell, batch.sequence, base as u32);
                        }
                    },
                    _ => {},
                }
                self.track(ticket, base, slot_count);
                counts = self.land(policy, ticket, base, &p.kind);
            },
        }
        (Some(fate), counts)
    }

    /// Take in a compilation that the host hands back under a ticket: `base` is
    /// the first of its slots, or negative where there are none. Returns what
    /// became of it, or nothing where the ticket is not known.
    pub fn complete(
        &mut self,
        queue: &mut JitQueue,
        ram: &JitPageState,
        policy: &JitPolicy,
        ticket: u64,
        base: i32,
        slot_count: u32,
    ) -> (fate: Option<Fate>)
        requires
            old(self).wf(),
            old(queue).wf(),
            ram.wf(),
            completable(old(self)@, old(queue)@, ticket, base, slot_count),
        ensures
            final(self).wf(),
            final(queue).wf(),
            completion(
                old(self)@,
                old(queue)@,
                final(self)@,
                final(queue)@,
                ram@,
                *policy,
                ticket,
                base,
                slot_count,
                fate,
            ),
    {
        self.complete_counted(queue, ram, policy, ticket, base, slot_count).0
    }

    /// Whether the host can have handed these slots back under a ticket.
    pub fn may_complete(&self, queue: &JitQueue, ticket: u64, base: i32, slot_count: u32) -> (r:
        bool)
        requires
            self.wf(),
        ensures
            r == completable(self@, queue@, ticket, base, slot_count),
    {
        if base >= 0 && (base as i64 + slot_count as i64 > 0x8000_0000
            || self.code.owns_slots(ticket)) {
            return false;
        }
        let mut i: usize = 0;
        while i < queue.in_flight()
            invariant
                i <= queue@.pending.len(),
                forall|k: int|
                    0 <= k < i ==> kind_ok((#[trigger] queue@.pending[k]).kind)
                        && queue@.pending[k].kind.slots() > 0,
            decreases queue@.pending.len() - i,
        {
            let p: &PendingJit = queue.flying(i);
            assert(queue@.pending[i as int] == *p);
            if !is_kind_ok(&p.kind) || p.slot_count() == 0 {
                return false;
            }
            i = i + 1;
        }
        self.are_slots_free(base, slot_count)
    }

    fn are_slots_free(&self, base: i32, slot_count: u32) -> (r: bool)
        ensures
            r == slots_free(self@.code, base as int, slot_count as int),
    {
        let mut n: u32 = 0;
        while n < slot_count
            invariant
                n <= slot_count,
                forall|idx: i32|
                    base <= idx < base + n ==> !(#[trigger] self@.code.slot_owner.contains_key(idx)),
            decreases slot_count - n,
        {
            let idx: i64 = base as i64 + n as i64;
            if idx > 0x7fff_ffff {
                return true;
            }
            let slot: i32 = idx as i32;
            if self.code.slot_owner.contains_key(&slot) {
                assert(self@.code.slot_owner.contains_key(slot));
                return false;
            }
            n = n + 1;
        }
        true
    }
}

/// Whether every page is a page of RAM.
fn are_pages_ok(pages: &[PagePair]) -> (r: bool)
    ensures
        r == pages_ok(pages@),
{
    let mut i: usize = 0;
    while i < pages.len()
        invariant
            i <= pages@.len(),
            forall|k: int|
                0 <= k < i ==> (#[trigger] pages@[k]).1 >= RAM_BASE && pages@[k].1 % 0x1000 == 0,
        decreases pages@.len() - i,
    {
        let pa: u64 = pages[i].1;
        assert(pages@[i as int].1 == pa);
        if pa < RAM_BASE || pa % 0x1000 != 0 {
            return false;
        }
        i = i + 1;
    }
    true
}

/// Whether a compilation is from pages of RAM, a page module from one.
fn is_kind_ok(kind: &PendingJitKind) -> (r: bool)
    ensures
        r == kind_ok(*kind),
{
    match kind {
        PendingJitKind::Block(block) => are_pages_ok(block.pages.as_slice()),
        PendingJitKind::Region(region) => are_pages_ok(region.pages.as_slice()),
        PendingJitKind::Batch(batch) => are_members_ok(
            batch.members.as_slice(),
            batch.page_module.is_some(),
        ),
    }
}

fn are_members_ok(members: &[PendingBlock], module: bool) -> (r: bool)
    ensures
        r == forall|k: int|
            0 <= k < members@.len() ==> pages_ok((#[trigger] members@[k]).pages@) && (module
                ==> members@[k].pages@.len() <= 1),
{
    let mut i: usize = 0;
    while i < members.len()
        invariant
            i <= members@.len(),
            forall|k: int|
                0 <= k < i ==> pages_ok((#[trigger] members@[k]).pages@) && (module
                    ==> members@[k].pages@.len() <= 1),
        decreases members@.len() - i,
    {
        if !are_pages_ok(members[i].pages.as_slice()) || (module && members[i].pages.len() > 1) {
            assert(!(pages_ok(members@[i as int].pages@) && (module
                ==> members@[i as int].pages@.len() <= 1)));
            return false;
        }
        i = i + 1;
    }
    true
}

/// Whether the host can have handed these slots back under a ticket: they are
/// free, and what is in flight is whole.
pub open spec fn completable(
    v: JitView,
    queue: QueueView,
    ticket: u64,
    base: i32,
    slot_count: u32,
) -> bool {
    &&& forall|i: int|
        0 <= i < queue.pending.len() ==> kind_ok((#[trigger] queue.pending[i]).kind)
            && queue.pending[i].kind.slots() > 0
    &&& slots_free(v.code, base as int, slot_count as int)
    &&& base >= 0 ==> base + slot_count <= 0x8000_0000
    &&& base >= 0 ==> !v.code.has_slots(ticket)
}

/// Whether a build is lost because its code was written while it was compiled: a
/// region that is stale, or any compilation of this boot that the host could
/// compile and that another took the place of.
pub open spec fn is_lost(ram: JitPages, boot_gen: u64, p: PendingJit, base: i32, fate: Fate) -> bool {
    match fate {
        Fate::Stale => p.kind is Region,
        Fate::Superseded => base >= 0 && p.boot_gen == boot_gen && !kind_fresh(ram, p.kind),
        _ => false,
    }
}

/// What a compilation counts for when it comes back: what it installs if it
/// lands, and else whether it is lost.
pub open spec fn counted(
    was: JitView,
    queue: QueueView,
    ram: JitPages,
    policy: JitPolicy,
    ticket: u64,
    base: i32,
    slot_count: u32,
    fate: Option<Fate>,
) -> LandingCounts {
    match queue.position(ticket, 0) {
        Some(i) => {
            let p = queue.pending[i];
            if fate == Some(Fate::Landed) {
                was.arrived(p.kind).with_module(p.ticket, base, slot_count as int).tally_of(
                    policy,
                    p.ticket,
                    base,
                    p.kind,
                )
            } else {
                LandingCounts {
                    stale: is_lost(ram, queue.boot_gen, p, base, fate->0),
                    ..LandingCounts::nothing()
                }
            }
        },
        None => LandingCounts::nothing(),
    }
}

/// Whether a state and a queue are what a compilation makes of others when it
/// comes back.
pub open spec fn completion(
    was: JitView,
    was_queue: QueueView,
    now: JitView,
    now_queue: QueueView,
    ram: JitPages,
    policy: JitPolicy,
    ticket: u64,
    base: i32,
    slot_count: u32,
    fate: Option<Fate>,
) -> bool {
    match was_queue.position(ticket, 0) {
        None => {
            &&& fate is None
            &&& now_queue == was_queue
            &&& now == was.adopted(base as int, slot_count as int)
        },
        Some(i) => {
            let p = was_queue.pending[i];
            &&& fate == Some(fate_of(was, ram, was_queue.boot_gen, p, base, slot_count))
            &&& completed(was.arrived(p.kind), now, policy, p, base, slot_count, fate->0)
            &&& now_queue == match (fate->0, p.kind) {
                (Fate::Full, _) => QueueView {
                    capacity_blocked: true,
                    capacity_rejections: bumped(was_queue.capacity_rejections),
                    ..was_queue.taken(i)
                },
                (Fate::Landed, PendingJitKind::Batch(batch)) => if batch.page_module is None {
                    was_queue.taken(i).published(batch.cell as int, batch.sequence, base as u32)
                } else {
                    was_queue.taken(i)
                },
                _ => was_queue.taken(i),
            }
        },
    }
}

/// Whether `now` is what a compilation makes of a state, given what becomes of
/// it.
pub open spec fn completed(
    here: JitView,
    now: JitView,
    policy: JitPolicy,
    p: PendingJit,
    base: i32,
    slot_count: u32,
    fate: Fate,
) -> bool {
    match fate {
        Fate::Mismatched => now == (if p.kind is Batch {
            here.given_up(p.ticket, p.kind, true)
        } else {
            here
        }).adopted(base as int, slot_count as int),
        Fate::Superseded => now == here.given_up(p.ticket, p.kind, false).adopted(
            base as int,
            slot_count as int,
        ),
        Fate::Full => {
            let mid = here.given_up(p.ticket, p.kind, false);
            if mid.code.recency =~= Map::<JitOwnerId, u64>::empty() {
                now == mid
            } else {
                exists|owner: JitOwnerId|
                    {
                        &&& mid.code.recency.contains_key(owner)
                        &&& forall|o: JitOwnerId| #[trigger]
                            mid.code.recency.contains_key(o) && o != owner ==> colder(
                                (mid.code.recency[owner], owner),
                                (mid.code.recency[o], o),
                            )
                        &&& #[trigger] mid.evicted(now, owner)
                    }
            }
        },
        Fate::Failed => now == here.given_up(p.ticket, p.kind, true),
        Fate::Stale => here.with_module(p.ticket, base, slot_count as int).given_up(
            p.ticket,
            p.kind,
            false,
        ).settled(now, p.ticket),
        Fate::Landed => here.with_module(p.ticket, base, slot_count as int).landed(
            now,
            policy,
            p.ticket,
            base,
            p.kind,
        ),
    }
}

// ---- laws ----------------------------------------------------------------

/// Whether a trace or a region function owns a pc does not depend on which of
/// them lands first: a trace takes the place of a region's entry exactly where
/// the region would have left the trace alone.
pub proof fn law_trace_and_region_agree(
    with_region: JitView,
    with_trace: JitView,
    aspace: u64,
    pages: Seq<PagePair>,
    pc: u64,
    region: JitBlock,
    trace: JitBlock,
    keep: u32,
)
    requires
        region.n == 0,
        trace.n != 0,
        with_region.code.cache.contains_key(pc) && with_region.code.cache[pc] == Some(region),
        with_trace.code.cache.contains_key(pc) && with_trace.code.cache[pc] == Some(trace),
        !with_trace.code.page_module_owns(aspace, pc),
        page_at(pages, page_base(pc), 0) is Some,
    ensures
        replaces(with_region.code.cache, pc, trace, keep) <==> !with_trace.region_claims(
            aspace,
            pages,
            pc,
            keep,
        ),
{
}

/// Code lands only if it is from this boot, no newer compilation took its place,
/// and no page that it was compiled from was written meanwhile.
pub proof fn law_only_current_code_lands(
    v: JitView,
    ram: JitPages,
    boot_gen: u64,
    p: PendingJit,
    base: i32,
    slot_count: u32,
)
    requires
        fate_of(v, ram, boot_gen, p, base, slot_count) == Fate::Landed,
    ensures
        p.boot_gen == boot_gen,
        v.still_owns(p.ticket, p.kind),
        kind_fresh(ram, p.kind),
        base >= 0,
{
}

pub(crate) proof fn lemma_with_slots_cache(v: CodeView, owner: JitOwnerId, slots: Seq<i32>, n: int)
    ensures
        v.with_slots(owner, slots, n).cache == v.cache,
    decreases n,
{
    if n > 0 {
        lemma_with_slots_cache(v, owner, slots, n - 1);
    }
}

/// A compilation that does not land installs nothing: every entry that is there
/// afterwards was there before.
pub proof fn law_unwanted_code_is_not_installed(
    here: JitView,
    now: JitView,
    policy: JitPolicy,
    p: PendingJit,
    base: i32,
    slot_count: u32,
    fate: Fate,
    pc: u64,
)
    requires
        completed(here, now, policy, p, base, slot_count, fate),
        fate != Fate::Landed,
        now.code.cache.contains_key(pc),
    ensures
        here.code.cache.contains_key(pc) && here.code.cache[pc] == now.code.cache[pc],
{
    lemma_with_slots_cache(
        here.code,
        p.ticket,
        slot_run(base, slot_count as int),
        slot_run(base, slot_count as int).len() as int,
    );
    if fate == Fate::Full {
        let mid = here.given_up(p.ticket, p.kind, false);
        if !(mid.code.recency =~= Map::<JitOwnerId, u64>::empty()) {
            let owner = choose|owner: JitOwnerId|
                {
                    &&& mid.code.recency.contains_key(owner)
                    &&& forall|o: JitOwnerId| #[trigger]
                        mid.code.recency.contains_key(o) && o != owner ==> colder(
                            (mid.code.recency[owner], owner),
                            (mid.code.recency[o], o),
                        )
                    &&& #[trigger] mid.evicted(now, owner)
                };
            let gone = choose|gone: JitView| #[trigger]
                mid.without_module(gone, owner, true) && now == gone.counted(
                    mid.code.slots_of(owner).len() as int,
                );
            let pcs = choose|pcs: Seq<u64>|
                {
                    &&& pcs.no_duplicates()
                    &&& pcs.to_set() =~= mid.code.entries_of(owner)
                    &&& #[trigger] mid.module_stripped(gone, owner, true, pcs)
                };
            assert(mid.code.without_module(gone.code, owner, true));
        }
    }
}

} // verus!
