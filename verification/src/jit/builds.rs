//! When a region function is built, and over which pages.

use vstd::prelude::*;
use crate::jit::block::{
    copied_pages, page_base, page_of, ExitsView, PagePair, PendingJitKind, PendingRegion,
    RegionExits,
};
use crate::jit::code::{ram_page, CodeView};
use crate::jit::index::PageKey;
use crate::jit::landing::{find_page, page_at};
use crate::jit::pages::{list_at, BuildRecord, DiscoveryView};
use crate::jit::queue::JitQueue;
use crate::jit::regions::{
    EXT_MEMORY_MODE_STAY, EXT_TRIGGER, MAX_EXT_REGION_PAGES, SB_PAGE_COOLDOWN, SB_RECOMPILE_CAP,
};
use crate::jit::state::{JitState, JitView};
use crate::ram::{checked_ram_range, JitPageState, JitPages, RAM_BASE};

verus! {

broadcast use vstd::std_specs::hash::group_hash_axioms;

/// Virtual pages a superblock region may span when it is first built.
pub const MAX_REGION_PAGES: usize = 3;

/// Once a code page accumulates this many hot NON-loop block entries it is
/// branchy enough (e.g. an interpreter's dispatch loop) to compile as one
/// superblock.
pub const SUPERBLOCK_THRESHOLD: usize = 6;

/// Individually-compiled hot pcs on a superblocked page before its page
/// function is rebuilt to cover them.
pub const SB_MISSED_TRIGGER: u32 = 8;

/// How close to the end of a page hot code reaches into the next.
pub const EDGE: u64 = 0x80;

// ---- pacing --------------------------------------------------------------

/// `n` doublings.
pub open spec fn doubled(v: int, n: int) -> int
    decreases n,
{
    if n <= 0 {
        v
    } else {
        2 * doubled(v, n - 1)
    }
}

/// Instructions to wait after a number of builds: each one doubles the wait, up
/// to the sixth.
pub open spec fn cooldown_of(compiles: u32) -> int {
    doubled(
        SB_PAGE_COOLDOWN as int,
        if compiles < 6 {
            compiles as int
        } else {
            6
        },
    )
}

fn cooldown(compiles: u32) -> (wait: u64)
    ensures
        wait == cooldown_of(compiles),
{
    let times: u32 = if compiles < 6 {
        compiles
    } else {
        6
    };
    let mut wait: u64 = SB_PAGE_COOLDOWN;
    let mut i: u32 = 0;
    while i < times
        invariant
            i <= times <= 6,
            wait == doubled(SB_PAGE_COOLDOWN as int, i as int),
            i == 0 ==> wait <= 8_000_000,
            i == 1 ==> wait <= 16_000_000,
            i == 2 ==> wait <= 32_000_000,
            i == 3 ==> wait <= 64_000_000,
            i == 4 ==> wait <= 128_000_000,
            i == 5 ==> wait <= 256_000_000,
            i == 6 ==> wait <= 512_000_000,
        decreases times - i,
    {
        wait = wait * 2;
        i = i + 1;
    }
    wait
}

/// A sum in the width of the instruction counter.
pub open spec fn counter_sum(a: u64, b: int) -> int {
    (a + b) % 0x1_0000_0000_0000_0000
}

impl BuildRecord {
    /// Whether the wait after the last build is over.
    pub open spec fn cool(self, insn_count: u64) -> bool {
        insn_count >= counter_sum(self.when, cooldown_of(self.compiles))
    }

    /// Whether the wait after the last build is over.
    pub fn is_cool(&self, insn_count: u64) -> (r: bool)
        ensures
            r == self.cool(insn_count),
    {
        insn_count >= self.when.wrapping_add(cooldown(self.compiles))
    }
}

/// When builds were last issued or looked for, in retired instructions.
#[derive(Debug, Clone, Copy, PartialEq, Eq, Structural)]
pub struct BuildPacing {
    pub last_build: u64,
    /// After a look that found no region of the current address space, do not
    /// look again before this.
    pub next_look: u64,
}

impl BuildPacing {
    /// Whether enough instructions have passed since the last build.
    pub fn spaced(&self, insn_count: u64, min_spacing: u64) -> (r: bool)
        ensures
            r == (insn_count >= counter_sum(self.last_build, min_spacing as int)),
    {
        insn_count >= self.last_build.wrapping_add(min_spacing)
    }

    /// Do not look for regions of the current address space for a while.
    pub fn look_later(&mut self, insn_count: u64, min_spacing: u64)
        ensures
            final(self).next_look == counter_sum(insn_count, min_spacing as int),
            final(self).last_build == old(self).last_build,
    {
        self.next_look = insn_count.wrapping_add(min_spacing);
    }
}

impl JitState {
    /// Whether to look for a region to extend: one asks for it, it may be handed
    /// over, and the last look and the last build are long enough ago.
    pub fn extension_due(
        &self,
        queue: &JitQueue,
        pacing: &BuildPacing,
        min_spacing: u64,
        insn_count: u64,
    ) -> (r: bool)
        ensures
            r == (self@.code.ext_queue.len() > 0 && queue@.issue_allowed() && insn_count
                >= pacing.next_look && insn_count >= counter_sum(
                pacing.last_build,
                min_spacing as int,
            )),
    {
        self.code.ext_queue.len() > 0 && queue.issue_allowed() && insn_count >= pacing.next_look
            && pacing.spaced(insn_count, min_spacing)
    }

    /// Whether to build a deferred page: there is one, it may be handed over, and
    /// the last build is long enough ago.
    pub fn deferred_due(
        &self,
        queue: &JitQueue,
        pacing: &BuildPacing,
        min_spacing: u64,
        insn_count: u64,
    ) -> (r: bool)
        ensures
            r == (self@.pages.queue.len() > 0 && queue@.issue_allowed() && insn_count
                >= counter_sum(pacing.last_build, min_spacing as int)),
    {
        self.pages.sb_queue.len() > 0 && queue.issue_allowed() && pacing.spaced(
            insn_count,
            min_spacing,
        )
    }
}

// ---- what a page wants ---------------------------------------------------

/// Whether a page wants a superblock: its first one once enough of it is hot,
/// another one once the last has visibly fallen behind.
pub open spec fn wants_superblock(
    v: DiscoveryView,
    key: PageKey,
    n_entries: int,
    insn_count: u64,
) -> bool {
    let record = v.build_of(key);
    if v.claims.superblocked.contains(key) {
        &&& record.cool(insn_count)
        &&& v.missed_of(key) >= SB_MISSED_TRIGGER
        &&& v.missed_of(key) >= (record.entries as int) % 0x1_0000_0000 / 4
        &&& n_entries > record.entries || record.compiles < SB_RECOMPILE_CAP
    } else {
        n_entries >= SUPERBLOCK_THRESHOLD
    }
}

impl JitState {
    /// Whether a page wants a superblock: its first one once enough of it is
    /// hot, another one once the last has visibly fallen behind — enough hot pcs
    /// needed their own blocks, scaled to what it already covers.
    pub fn wants_superblock(&self, key: PageKey, n_entries: usize, insn_count: u64) -> (r: bool)
        ensures
            r == wants_superblock(self@.pages, key, n_entries as int, insn_count),
    {
        if self.pages.superblocked.contains_key(&key) {
            let record: BuildRecord = self.pages.build_of(&key);
            let missed: u32 = self.pages.missed_of(&key);
            let covered: u64 = record.entries as u64 % 0x1_0000_0000 / 4;
            record.is_cool(insn_count) && missed >= SB_MISSED_TRIGGER && missed as u64 >= covered
                && (n_entries > record.entries || record.compiles < SB_RECOMPILE_CAP)
        } else {
            n_entries >= SUPERBLOCK_THRESHOLD
        }
    }
}

// ---- the pages of a first build ------------------------------------------

/// What the hart finds when it looks up pages for fetching.
pub open spec fn probe_of(probes: Seq<(u64, Option<u64>)>, va: u64, i: int) -> Option<u64>
    decreases probes.len() - i,
{
    if i < 0 || i >= probes.len() {
        None
    } else if probes[i].0 == va {
        probes[i].1
    } else {
        probe_of(probes, va, i + 1)
    }
}

fn find_probe(probes: &[(u64, Option<u64>)], va: u64) -> (pa: Option<u64>)
    ensures
        pa == probe_of(probes@, va, 0),
{
    let mut i: usize = 0;
    while i < probes.len()
        invariant
            i <= probes@.len(),
            probe_of(probes@, va, 0) == probe_of(probes@, va, i as int),
        decreases probes@.len() - i,
    {
        let (page, pa): (u64, Option<u64>) = probes[i];
        if page == va {
            return pa;
        }
        i = i + 1;
    }
    None
}

/// Whether a whole page lies in RAM.
pub open spec fn page_in_ram(ram_len: nat, page: u64) -> bool {
    RAM_BASE <= page && page - RAM_BASE + 0x1000 <= ram_len
}

/// The pages with one more, where there is room, it is not there yet, and it
/// maps to RAM.
pub open spec fn probed(
    pages: Seq<PagePair>,
    probes: Seq<(u64, Option<u64>)>,
    ram_len: nat,
    va: u64,
) -> Seq<PagePair> {
    if pages.len() >= MAX_REGION_PAGES || page_at(pages, va, 0) is Some {
        pages
    } else {
        match probe_of(probes, va, 0) {
            Some(pa) => if page_in_ram(ram_len, page_base(pa)) {
                pages.push((va, page_base(pa)))
            } else {
                pages
            },
            None => pages,
        }
    }
}

fn probe_add(
    pages: &mut Vec<PagePair>,
    probes: &[(u64, Option<u64>)],
    ram_len: usize,
    va: u64,
)
    ensures
        final(pages)@ == probed(old(pages)@, probes@, ram_len as nat, va),
{
    if pages.len() >= MAX_REGION_PAGES || find_page(pages.as_slice(), va).is_some() {
        return;
    }
    match find_probe(probes, va) {
        Some(pa) => {
            let page: u64 = page_of(pa);
            if checked_ram_range(ram_len, RAM_BASE, page, 0x1000).is_some() {
                pages.push((va, page));
            }
        },
        None => {},
    }
}

/// The page above, in the width of an address.
pub open spec fn page_above(va: u64) -> u64 {
    if va <= u64::MAX - 0x1000 {
        (va + 0x1000) as u64
    } else {
        (va + 0x1000 - 0x1_0000_0000_0000_0000) as u64
    }
}

/// The page below, in the width of an address.
pub open spec fn page_below(va: u64) -> u64 {
    if va >= 0x1000 {
        (va - 0x1000) as u64
    } else {
        (va + 0x1_0000_0000_0000_0000 - 0x1000) as u64
    }
}

/// Whether a page has hot entries.
pub open spec fn is_hot(v: DiscoveryView, aspace: u64, va: u64) -> bool {
    list_at(v.entries, (aspace, va)).len() > 0
}

/// The pages after the hot neighbours above `va` joined, one after another,
/// while there is room and each maps to RAM.
pub open spec fn joined_above(
    v: DiscoveryView,
    aspace: u64,
    pages: Seq<PagePair>,
    probes: Seq<(u64, Option<u64>)>,
    ram_len: nat,
    va: u64,
) -> Seq<PagePair>
    decreases MAX_REGION_PAGES - pages.len(),
{
    if pages.len() >= MAX_REGION_PAGES || !is_hot(v, aspace, va) {
        pages
    } else {
        let more = probed(pages, probes, ram_len, va);
        if more.len() == pages.len() {
            pages
        } else {
            joined_above(v, aspace, more, probes, ram_len, page_above(va))
        }
    }
}

/// The pages after the hot neighbours below `vpage` joined in the same way.
pub open spec fn joined_below(
    v: DiscoveryView,
    aspace: u64,
    pages: Seq<PagePair>,
    probes: Seq<(u64, Option<u64>)>,
    ram_len: nat,
    vpage: u64,
    va: u64,
) -> Seq<PagePair>
    decreases MAX_REGION_PAGES - pages.len(),
{
    if va >= vpage || pages.len() >= MAX_REGION_PAGES || !is_hot(v, aspace, va) {
        pages
    } else {
        let more = probed(pages, probes, ram_len, va);
        if more.len() == pages.len() {
            pages
        } else {
            joined_below(v, aspace, more, probes, ram_len, vpage, page_below(va))
        }
    }
}

/// Whether any entry is close to the end of its page.
pub open spec fn near_end(seeds: Seq<u64>) -> bool {
    exists|k: int| 0 <= k < seeds.len() && (#[trigger] seeds[k]) % 0x1000 >= 0x1000 - EDGE
}

/// Whether any entry is close to the start of its page.
pub open spec fn near_start(seeds: Seq<u64>) -> bool {
    exists|k: int| 0 <= k < seeds.len() && (#[trigger] seeds[k]) % 0x1000 < EDGE
}

/// The pages of a first build: the hot page, the neighbour that hot code is
/// about to run into, and hot neighbours above and below.
pub open spec fn build_pages(
    v: DiscoveryView,
    aspace: u64,
    vpage: u64,
    pa_page: u64,
    probes: Seq<(u64, Option<u64>)>,
    ram_len: nat,
) -> Seq<PagePair> {
    let seeds = list_at(v.entries, (aspace, vpage));
    let own = seq![(vpage, pa_page)];
    let up = if near_end(seeds) {
        probed(own, probes, ram_len, page_above(vpage))
    } else {
        own
    };
    let down = if vpage >= 0x1000 && near_start(seeds) {
        probed(up, probes, ram_len, page_below(vpage))
    } else {
        up
    };
    let above = joined_above(v, aspace, down, probes, ram_len, page_above(vpage));
    joined_below(v, aspace, above, probes, ram_len, vpage, page_below(vpage))
}

impl JitState {
    fn page_is_hot(&self, aspace: u64, va: u64) -> (r: bool)
        ensures
            r == is_hot(self@.pages, aspace, va),
    {
        match self.pages.page_entries.get(&(aspace, va)) {
            Some(list) => list.len() > 0,
            None => false,
        }
    }

    /// The pages of a first build of the page at `vpage`. `probes` is what the
    /// hart finds for the pages around it.
    pub fn select_build_pages(
        &self,
        aspace: u64,
        vpage: u64,
        pa_page: u64,
        probes: &[(u64, Option<u64>)],
        ram_len: usize,
    ) -> (pages: Vec<PagePair>)
        ensures
            pages@ == build_pages(
                self@.pages,
                aspace,
                vpage,
                pa_page,
                probes@,
                ram_len as nat,
            ),
    {
        let seeds: Vec<u64> = self.pages.entries_of(&(aspace, vpage));
        let mut pages: Vec<PagePair> = Vec::new();
        pages.push((vpage, pa_page));
        assert(pages@ =~= seq![(vpage, pa_page)]);
        let (mut at_end, mut at_start): (bool, bool) = (false, false);
        let mut i: usize = 0;
        while i < seeds.len()
            invariant
                i <= seeds@.len(),
                at_end == exists|k: int|
                    0 <= k < i && (#[trigger] seeds@[k]) % 0x1000 >= 0x1000 - EDGE,
                at_start == exists|k: int| 0 <= k < i && (#[trigger] seeds@[k]) % 0x1000 < EDGE,
            decreases seeds@.len() - i,
        {
            let offset: u64 = seeds[i] % 0x1000;
            assert(seeds@[i as int] % 0x1000 == offset);
            if offset >= 0x1000 - EDGE {
                at_end = true;
            }
            if offset < EDGE {
                at_start = true;
            }
            i = i + 1;
        }
        let above: u64 = vpage.wrapping_add(0x1000);
        let below: u64 = vpage.wrapping_sub(0x1000);
        if at_end {
            probe_add(&mut pages, probes, ram_len, above);
        }
        if vpage >= 0x1000 && at_start {
            probe_add(&mut pages, probes, ram_len, below);
        }
        let ghost v = self@.pages;
        let ghost n = ram_len as nat;
        let mut va: u64 = above;
        let ghost goal = joined_above(v, aspace, pages@, probes@, n, above);
        let mut more: bool = true;
        while more && pages.len() < MAX_REGION_PAGES && self.page_is_hot(aspace, va)
            invariant
                v == self@.pages,
                n == ram_len as nat,
                if more {
                    goal == joined_above(v, aspace, pages@, probes@, n, va)
                } else {
                    goal == pages@
                },
            decreases
                MAX_REGION_PAGES - pages@.len(),
                if more {
                    1int
                } else {
                    0
                },
        {
            let before: usize = pages.len();
            probe_add(&mut pages, probes, ram_len, va);
            if pages.len() == before {
                more = false;
            } else {
                va = va.wrapping_add(0x1000);
            }
        }
        assert(pages@ == goal);
        let mut va: u64 = below;
        let ghost goal = joined_below(v, aspace, pages@, probes@, n, vpage, below);
        let mut more: bool = true;
        while more && va < vpage && pages.len() < MAX_REGION_PAGES && self.page_is_hot(aspace, va)
            invariant
                v == self@.pages,
                n == ram_len as nat,
                if more {
                    goal == joined_below(v, aspace, pages@, probes@, n, vpage, va)
                } else {
                    goal == pages@
                },
            decreases
                MAX_REGION_PAGES - pages@.len(),
                if more {
                    1int
                } else {
                    0
                },
        {
            let before: usize = pages.len();
            probe_add(&mut pages, probes, ram_len, va);
            if pages.len() == before {
                more = false;
            } else {
                va = va.wrapping_sub(0x1000);
            }
        }
        pages
    }
}

// ---- extension -----------------------------------------------------------

/// A list by falling counts with one more target, behind those that are as hot.
pub open spec fn with_target(list: Seq<(u64, u32)>, target: (u64, u32)) -> Seq<(u64, u32)>
    decreases list.len(),
{
    if list.len() == 0 {
        seq![target]
    } else if list[0].1 >= target.1 {
        seq![list[0]] + with_target(list.drop_first(), target)
    } else {
        seq![target] + list
    }
}

/// The first `n` targets, hottest first.
pub open spec fn hottest_first(targets: Seq<(u64, u32)>, n: int) -> Seq<(u64, u32)>
    decreases n,
{
    if n <= 0 {
        Seq::empty()
    } else {
        with_target(hottest_first(targets, n - 1), targets[n - 1])
    }
}

proof fn lemma_with_target(list: Seq<(u64, u32)>, target: (u64, u32), at: int)
    requires
        0 <= at <= list.len(),
        forall|k: int| 0 <= k < at ==> (#[trigger] list[k]).1 >= target.1,
        at < list.len() ==> list[at].1 < target.1,
    ensures
        with_target(list, target) == list.insert(at, target),
    decreases list.len(),
{
    if list.len() == 0 {
        assert(with_target(list, target) =~= list.insert(at, target));
    } else if at == 0 {
        assert(with_target(list, target) =~= list.insert(at, target));
    } else {
        let rest = list.drop_first();
        assert forall|k: int| 0 <= k < at - 1 implies (#[trigger] rest[k]).1 >= target.1 by {
            assert(list[k + 1].1 >= target.1);
        }
        lemma_with_target(rest, target, at - 1);
        assert(with_target(list, target) =~= list.insert(at, target));
    }
}

fn sort_targets(targets: &[(u64, u32)]) -> (list: Vec<(u64, u32)>)
    ensures
        list@ == hottest_first(targets@, targets@.len() as int),
{
    let mut list: Vec<(u64, u32)> = Vec::new();
    assert(list@ =~= Seq::empty());
    let mut i: usize = 0;
    while i < targets.len()
        invariant
            i <= targets@.len(),
            list@ == hottest_first(targets@, i as int),
        decreases targets@.len() - i,
    {
        let target: (u64, u32) = targets[i];
        let mut at: usize = 0;
        while at < list.len() && list[at].1 >= target.1
            invariant
                at <= list@.len(),
                forall|k: int| 0 <= k < at ==> (#[trigger] list@[k]).1 >= target.1,
            decreases list@.len() - at,
        {
            at = at + 1;
        }
        proof {
            lemma_with_target(list@, target, at as int);
        }
        list.insert(at, target);
        i = i + 1;
    }
    list
}

/// The physical page of the first of these entries that is compiled.
pub open spec fn code_page_from(code: CodeView, entries: Seq<u64>, i: int) -> Option<u64>
    decreases entries.len() - i,
{
    if i < 0 || i >= entries.len() {
        None
    } else if code.slot_at(entries[i]) is Some {
        Some(page_base(code.cache[entries[i]]->0.pa))
    } else {
        code_page_from(code, entries, i + 1)
    }
}

/// The pages after those of the first `n` targets joined that have compiled code
/// in RAM, while there is room.
pub open spec fn extended(
    v: JitView,
    aspace: u64,
    pages: Seq<PagePair>,
    targets: Seq<(u64, u32)>,
    ram_len: nat,
    n: int,
) -> Seq<PagePair>
    decreases n,
{
    if n <= 0 {
        pages
    } else {
        let before = extended(v, aspace, pages, targets, ram_len, n - 1);
        let page = targets[n - 1].0;
        if before.len() >= MAX_EXT_REGION_PAGES || page_at(before, page, 0) is Some {
            before
        } else {
            match code_page_from(v.code, list_at(v.pages.entries, (aspace, page)), 0) {
                Some(pa) => if page_in_ram(ram_len, pa) {
                    before.push((page, pa))
                } else {
                    before
                },
                None => before,
            }
        }
    }
}

impl ExitsView {
    /// The measured average stay.
    pub open spec fn average_stay(self) -> u64 {
        self.stay_sum / (if self.samples == 0 {
            1
        } else {
            self.samples as u64
        })
    }
}

/// A region that is to be built.
#[derive(Debug)]
pub struct RegionPlan {
    pub aspace: u64,
    /// The page that keys the build cooldown.
    pub lead: u64,
    pub pages: Vec<PagePair>,
    /// Builds of the lead page so far that covered nothing new.
    pub compiles: u32,
    pub n_entries: usize,
    /// Whether the build covers nothing new.
    pub unproductive: bool,
    /// Whether registers are kept in memory instead of locals.
    pub regs_in_memory: bool,
}

/// What becomes of a region that asks for extension.
#[derive(Debug)]
pub enum ExtensionPlan {
    /// The region is not known any more.
    Gone,
    /// The wait after the last build is not over, or its allowance is spent.
    Cooling,
    /// No target can join.
    NoTarget,
    Build(RegionPlan),
}

impl JitView {
    /// The pages that a region would grow to.
    pub open spec fn extension_pages(self, idx: i32, ram_len: nat) -> Seq<PagePair> {
        let r = self.code.exits[idx];
        let order = hottest_first(r.targets, r.targets.len() as int);
        extended(self, r.aspace, r.pages, order, ram_len, order.len() as int)
    }

    /// The state with the trigger of a region armed again.
    pub open spec fn rearmed(self, idx: i32) -> JitView {
        JitView {
            code: CodeView {
                exits: self.code.exits.insert(
                    idx,
                    ExitsView { total: (EXT_TRIGGER / 2) as u32, ..self.code.exits[idx] },
                ),
                ..self.code
            },
            ..self
        }
    }
}

impl JitState {
    fn code_page(&self, key: &PageKey) -> (pa: Option<u64>)
        ensures
            pa == code_page_from(self@.code, list_at(self@.pages.entries, *key), 0),
    {
        let list: &Vec<u64> = match self.pages.page_entries.get(key) {
            Some(list) => list,
            None => {
                return None;
            },
        };
        let ghost entries = list_at(self@.pages.entries, *key);
        assert(list@ == entries);
        let mut i: usize = 0;
        while i < list.len()
            invariant
                i <= list@.len(),
                list@ == entries,
                entries == list_at(self@.pages.entries, *key),
                code_page_from(self@.code, entries, 0) == code_page_from(
                    self@.code,
                    entries,
                    i as int,
                ),
            decreases list@.len() - i,
        {
            match self.code.entry(list[i]) {
                Some(Some(block)) => {
                    if block.idx >= 0 {
                        return Some(page_of(block.pa));
                    }
                },
                _ => {},
            }
            i = i + 1;
        }
        None
    }

    fn rearm(&mut self, idx: i32, r: RegionExits)
        requires
            old(self).wf(),
            !old(self)@.code.exits.contains_key(idx),
        ensures
            final(self).wf(),
            final(self)@ == (JitView {
                code: CodeView {
                    exits: old(self)@.code.exits.insert(
                        idx,
                        ExitsView { total: (EXT_TRIGGER / 2) as u32, ..r@ },
                    ),
                    ..old(self)@.code
                },
                ..old(self)@
            }),
    {
        let ghost was = self@;
        let mut r = r;
        let ghost known = r@;
        r.total = EXT_TRIGGER / 2;
        assert(r@ =~= (ExitsView { total: (EXT_TRIGGER / 2) as u32, ..known }));
        self.code.region_exits.insert(idx, r);
        assert(self@.code.exits =~= was.code.exits.insert(idx, r@));
    }

    /// Grow a region along its measured exit traffic: plan a build over the old
    /// page set plus the hottest out-of-region exit-target pages. The profile is
    /// consumed; the old function keeps running until the superset lands.
    pub fn plan_extension(&mut self, idx: i32, insn_count: u64, ram_len: usize) -> (plan:
        ExtensionPlan)
        requires
            old(self).wf(),
        ensures
            final(self).wf(),
            if !old(self)@.code.exits.contains_key(idx) {
                plan is Gone && final(self)@ == old(self)@
            } else {
                let r = old(self)@.code.exits[idx];
                let record = old(self)@.pages.build_of((r.aspace, r.lead));
                let pages = old(self)@.extension_pages(idx, ram_len as nat);
                if !record.cool(insn_count) || record.compiles >= SB_RECOMPILE_CAP {
                    plan is Cooling && final(self)@ == old(self)@.rearmed(idx)
                } else if pages.len() == r.pages.len() {
                    plan is NoTarget && final(self)@ == old(self)@.rearmed(idx)
                } else {
                    &&& plan matches ExtensionPlan::Build(p) && {
                        &&& p.aspace == r.aspace
                        &&& p.lead == r.lead
                        &&& p.pages@ == pages
                        &&& p.compiles == record.compiles
                        &&& p.n_entries == list_at(
                            old(self)@.pages.entries,
                            (r.aspace, r.lead),
                        ).len()
                        &&& !p.unproductive
                        &&& p.regs_in_memory == (r.average_stay() < EXT_MEMORY_MODE_STAY)
                    }
                    &&& final(self)@ == (JitView {
                        code: CodeView {
                            exits: old(self)@.code.exits.remove(idx),
                            ..old(self)@.code
                        },
                        ..old(self)@
                    })
                }
            },
    {
        let ghost was = self@;
        let r: RegionExits = match self.code.region_exits.remove(&idx) {
            Some(r) => r,
            None => {
                assert(self@.code.exits =~= was.code.exits);
                return ExtensionPlan::Gone;
            },
        };
        let ghost known = was.code.exits[idx];
        assert(self@.code.exits =~= was.code.exits.remove(idx));
        let record: BuildRecord = self.pages.build_of(&(r.aspace, r.lead));
        if !record.is_cool(insn_count) || record.compiles >= SB_RECOMPILE_CAP {
            self.rearm(idx, r);
            assert(self@.code.exits =~= was.rearmed(idx).code.exits);
            return ExtensionPlan::Cooling;
        }
        let average: u64 = r.stay_sum / (if r.samples == 0 {
            1
        } else {
            r.samples as u64
        });
        let targets: Vec<(u64, u32)> = sort_targets(r.targets.as_slice());
        let mut pages: Vec<PagePair> = copied_pages(r.pages.as_slice());
        let n: usize = pages.len();
        let mut i: usize = 0;
        while i < targets.len()
            invariant
                i <= targets@.len(),
                self.wf(),
                known == r@,
                self@.code.cache == was.code.cache,
                self@.pages == was.pages,
                pages@ == extended(
                    was,
                    known.aspace,
                    known.pages,
                    targets@,
                    ram_len as nat,
                    i as int,
                ),
            decreases targets@.len() - i,
        {
            let page: u64 = targets[i].0;
            if pages.len() < MAX_EXT_REGION_PAGES && find_page(pages.as_slice(), page).is_none() {
                let found: Option<u64> = self.code_page(&(r.aspace, page));
                proof {
                    lemma_code_page(
                        was.code,
                        self@.code,
                        list_at(was.pages.entries, (r.aspace, page)),
                        0,
                    );
                }
                match found {
                    Some(pa) => {
                        if checked_ram_range(ram_len, RAM_BASE, pa, 0x1000).is_some() {
                            pages.push((page, pa));
                        }
                    },
                    None => {},
                }
            }
            i = i + 1;
        }
        if pages.len() == n {
            self.rearm(idx, r);
            assert(self@.code.exits =~= was.rearmed(idx).code.exits);
            return ExtensionPlan::NoTarget;
        }
        let n_entries: usize = match self.pages.page_entries.get(&(r.aspace, r.lead)) {
            Some(list) => list.len(),
            None => 0,
        };
        ExtensionPlan::Build(
            RegionPlan {
                aspace: r.aspace,
                lead: r.lead,
                pages,
                compiles: record.compiles,
                n_entries,
                unproductive: false,
                regs_in_memory: average < EXT_MEMORY_MODE_STAY,
            },
        )
    }

    /// Take the first queued region of an address space. Where there is none,
    /// drop the regions from the queue that are not known any more.
    pub fn take_extension(&mut self, aspace: u64) -> (idx: Option<i32>)
        requires
            old(self).wf(),
        ensures
            final(self).wf(),
            match idx {
                Some(idx) => exists|i: int|
                    {
                        &&& 0 <= i < old(self)@.code.ext_queue.len()
                        &&& #[trigger] old(self)@.code.ext_queue[i] == idx
                        &&& of_space(old(self)@.code, idx, aspace)
                        &&& forall|k: int|
                            0 <= k < i ==> !of_space(
                                old(self)@.code,
                                old(self)@.code.ext_queue[k],
                                aspace,
                            )
                        &&& final(self)@ == old(self)@.with_ext_queue(
                            old(self)@.code.ext_queue.remove(i),
                        )
                    },
                None => {
                    &&& forall|k: int|
                        0 <= k < old(self)@.code.ext_queue.len() ==> !of_space(
                            old(self)@.code,
                            #[trigger] old(self)@.code.ext_queue[k],
                            aspace,
                        )
                    &&& final(self)@ == old(self)@.with_ext_queue(
                        known_regions(
                            old(self)@.code,
                            old(self)@.code.ext_queue.len() as int,
                        ),
                    )
                },
            },
    {
        let ghost was = self@;
        let mut kept: Vec<i32> = Vec::new();
        assert(kept@ =~= known_regions(was.code, 0));
        let mut i: usize = 0;
        while i < self.code.ext_queue.len()
            invariant
                i <= self.code.ext_queue@.len(),
                *self == *old(self),
                self.wf(),
                was == self@,
                kept@ == known_regions(was.code, i as int),
                forall|k: int|
                    0 <= k < i ==> !of_space(was.code, #[trigger] was.code.ext_queue[k], aspace),
            decreases self.code.ext_queue@.len() - i,
        {
            let idx: i32 = self.code.ext_queue[i];
            match self.code.region_exits.get(&idx) {
                Some(r) => {
                    assert(was.code.exits[idx] == r@);
                    if r.aspace == aspace {
                        assert(was.code.ext_queue[i as int] == idx);
                        self.code.ext_queue.remove(i);
                        return Some(idx);
                    }
                    kept.push(idx);
                },
                None => {},
            }
            i = i + 1;
        }
        self.code.ext_queue = kept;
        None
    }
}

/// Whether a region is known and belongs to an address space.
pub open spec fn of_space(code: CodeView, idx: i32, aspace: u64) -> bool {
    code.exits.contains_key(idx) && code.exits[idx].aspace == aspace
}

/// Those of the first `n` queued regions that are still known.
pub open spec fn known_regions(code: CodeView, n: int) -> Seq<i32>
    decreases n,
{
    if n <= 0 {
        Seq::empty()
    } else if code.exits.contains_key(code.ext_queue[n - 1]) {
        known_regions(code, n - 1).push(code.ext_queue[n - 1])
    } else {
        known_regions(code, n - 1)
    }
}

impl JitView {
    pub open spec fn with_ext_queue(self, ext_queue: Seq<i32>) -> JitView {
        JitView { code: CodeView { ext_queue, ..self.code }, ..self }
    }
}

proof fn lemma_code_page(a: CodeView, b: CodeView, entries: Seq<u64>, i: int)
    requires
        a.cache == b.cache,
    ensures
        code_page_from(a, entries, i) == code_page_from(b, entries, i),
    decreases entries.len() - i,
{
    if 0 <= i < entries.len() {
        lemma_code_page(a, b, entries, i + 1);
    }
}

// ---- issuing -------------------------------------------------------------

/// Leaders per superblock. Every entry into the function loads the register
/// UNION over all its bodies and every exit stores the written union, so a
/// function that covers more of the page pays more on each entry. Hot pcs are
/// seeded first, so the cap trims cold reachable code, not the hot core.
pub const MAX_LEADERS: usize = 512;

/// A list by rising virtual pages with one more page.
pub open spec fn with_page(list: Seq<PagePair>, page: PagePair) -> Seq<PagePair>
    decreases list.len(),
{
    if list.len() == 0 {
        seq![page]
    } else if list[0].0 <= page.0 {
        seq![list[0]] + with_page(list.drop_first(), page)
    } else {
        seq![page] + list
    }
}

/// The first `n` pages, by rising virtual pages.
pub open spec fn pages_in_order(pages: Seq<PagePair>, n: int) -> Seq<PagePair>
    decreases n,
{
    if n <= 0 {
        Seq::empty()
    } else {
        with_page(pages_in_order(pages, n - 1), pages[n - 1])
    }
}

proof fn lemma_with_page(list: Seq<PagePair>, page: PagePair, at: int)
    requires
        0 <= at <= list.len(),
        forall|k: int| 0 <= k < at ==> (#[trigger] list[k]).0 <= page.0,
        at < list.len() ==> list[at].0 > page.0,
    ensures
        with_page(list, page) == list.insert(at, page),
    decreases list.len(),
{
    if list.len() > 0 && at > 0 {
        let rest = list.drop_first();
        assert forall|k: int| 0 <= k < at - 1 implies (#[trigger] rest[k]).0 <= page.0 by {
            assert(list[k + 1].0 <= page.0);
        }
        lemma_with_page(rest, page, at - 1);
    }
    assert(with_page(list, page) =~= list.insert(at, page));
}

/// Pages by rising virtual pages. Ascending order keeps virtually contiguous
/// pages adjacent, which is what lets bodies flow across their shared boundary.
pub fn sort_pages(pages: &[PagePair]) -> (list: Vec<PagePair>)
    ensures
        list@ == pages_in_order(pages@, pages@.len() as int),
{
    let mut list: Vec<PagePair> = Vec::new();
    assert(list@ =~= Seq::empty());
    let mut i: usize = 0;
    while i < pages.len()
        invariant
            i <= pages@.len(),
            list@ == pages_in_order(pages@, i as int),
        decreases pages@.len() - i,
    {
        let page: PagePair = pages[i];
        let mut at: usize = 0;
        while at < list.len() && list[at].0 <= page.0
            invariant
                at <= list@.len(),
                forall|k: int| 0 <= k < at ==> (#[trigger] list@[k]).0 <= page.0,
            decreases list@.len() - at,
        {
            at = at + 1;
        }
        proof {
            lemma_with_page(list@, page, at as int);
        }
        list.insert(at, page);
        i = i + 1;
    }
    list
}

/// The code on the first `n` pages.
pub open spec fn code_of(ram: Seq<u8>, pages: Seq<PagePair>, n: int) -> Seq<u8>
    decreases n,
{
    if n <= 0 {
        Seq::empty()
    } else {
        let at = pages[n - 1].1 - RAM_BASE;
        code_of(ram, pages, n - 1) + ram.subrange(at, at + 0x1000)
    }
}

/// The code on some pages, one after another.
pub fn gather_code(ram: &[u8], pages: &[PagePair]) -> (code: Vec<u8>)
    requires
        forall|k: int| 0 <= k < pages@.len() ==> page_in_ram(ram@.len(), (#[trigger] pages@[k]).1),
    ensures
        code@ == code_of(ram@, pages@, pages@.len() as int),
{
    let mut code: Vec<u8> = Vec::new();
    assert(code@ =~= Seq::empty());
    let mut i: usize = 0;
    while i < pages.len()
        invariant
            i <= pages@.len(),
            forall|k: int|
                0 <= k < pages@.len() ==> page_in_ram(ram@.len(), (#[trigger] pages@[k]).1),
            code@ == code_of(ram@, pages@, i as int),
        decreases pages@.len() - i,
    {
        assert(page_in_ram(ram@.len(), pages@[i as int].1));
        assert(ram@.len() == ram.len());
        let at: usize = (pages[i].1 - RAM_BASE) as usize;
        crate::bytes::push_all(&mut code, vstd::slice::slice_subrange(ram, at, at + 0x1000));
        i = i + 1;
    }
    code
}

/// Where the run of virtually contiguous pages that `i` belongs to ends.
pub open spec fn run_end(pages: Seq<PagePair>, i: int) -> int
    decreases pages.len() - i,
{
    if 0 <= i && i + 1 < pages.len() && pages[i + 1].0 == page_above(pages[i].0) {
        run_end(pages, i + 1)
    } else {
        i
    }
}

/// The hot entries of the pages from `i` up to `j`.
pub open spec fn run_seeds(v: DiscoveryView, aspace: u64, pages: Seq<PagePair>, i: int, j: int) -> Seq<
    u64,
>
    decreases j - i + 1,
{
    if j < i {
        Seq::empty()
    } else {
        run_seeds(v, aspace, pages, i, j - 1) + list_at(v.entries, (aspace, pages[j].0))
    }
}

/// One run of virtually contiguous pages of a region.
#[derive(Debug)]
pub struct RegionRun {
    pub first: usize,
    pub last: usize,
    /// The hot entries of the run's pages: static reachability crosses page
    /// boundaries, so a seed on one page discovers the leaders of its
    /// neighbours.
    pub seeds: Vec<u64>,
}

impl JitState {
    /// The run of contiguous pages that starts at `first`.
    pub fn region_run(&self, aspace: u64, pages: &[PagePair], first: usize) -> (run: RegionRun)
        requires
            first < pages@.len(),
        ensures
            run.first == first,
            run.last == run_end(pages@, first as int),
            first <= run.last < pages@.len(),
            run.seeds@ == run_seeds(
                self@.pages,
                aspace,
                pages@,
                first as int,
                run.last as int,
            ),
    {
        let mut last: usize = first;
        let mut seeds: Vec<u64> = self.pages.entries_of(&(aspace, pages[first].0));
        assert(run_seeds(self@.pages, aspace, pages@, first as int, first - 1) =~= Seq::empty());
        assert(seeds@ =~= run_seeds(self@.pages, aspace, pages@, first as int, first as int));
        while last + 1 < pages.len() && pages[last + 1].0 == pages[last].0.wrapping_add(0x1000)
            invariant
                first <= last < pages.len(),
                run_end(pages@, first as int) == run_end(pages@, last as int),
                seeds@ == run_seeds(self@.pages, aspace, pages@, first as int, last as int),
            decreases pages@.len() - last,
        {
            last = last + 1;
            let mut more: Vec<u64> = self.pages.entries_of(&(aspace, pages[last].0));
            seeds.append(&mut more);
        }
        RegionRun { first, last, seeds }
    }
}

impl JitState {
    /// The next run of a region whose leaders are looked for, and how many more
    /// leaders the region takes. None follows the last run, or once the region
    /// is full.
    pub fn next_region_run(
        &self,
        aspace: u64,
        pages: &[PagePair],
        first: usize,
        found: usize,
    ) -> (next: Option<(RegionRun, usize)>)
        ensures
            match next {
                None => first >= pages@.len() || found >= MAX_LEADERS,
                Some((run, room)) => {
                    &&& first < pages@.len()
                    &&& found + room == MAX_LEADERS
                    &&& room > 0
                    &&& run.first == first
                    &&& run.last == run_end(pages@, first as int)
                    &&& first <= run.last < pages@.len()
                    &&& run.seeds@ == run_seeds(
                        self@.pages,
                        aspace,
                        pages@,
                        first as int,
                        run.last as int,
                    )
                },
            },
    {
        if first >= pages.len() || found >= MAX_LEADERS {
            return None;
        }
        Some((self.region_run(aspace, pages, first), MAX_LEADERS - found))
    }
}

/// A leader that was discovered, and what is known of the code there.
#[derive(Debug, Clone, Copy, PartialEq, Eq, Structural)]
pub struct Leader {
    pub pc: u64,
    /// Whether the code can be translated.
    pub emittable: bool,
    /// Whether a jump goes back to it.
    pub back: bool,
    /// Whether it heads a loop.
    pub is_loop: bool,
}

impl Leader {
    /// Whether a region function takes it: loop headers keep their own tight
    /// blocks.
    pub open spec fn taken(self) -> bool {
        self.emittable && (!self.back || !self.is_loop)
    }
}

/// The pcs of the first `n` leaders that a region function takes.
pub open spec fn taken_leaders(leaders: Seq<Leader>, n: int) -> Seq<u64>
    decreases n,
{
    if n <= 0 {
        Seq::empty()
    } else if leaders[n - 1].taken() {
        taken_leaders(leaders, n - 1).push(leaders[n - 1].pc)
    } else {
        taken_leaders(leaders, n - 1)
    }
}

/// The pcs of the leaders that a region function takes.
pub fn take_leaders(leaders: &[Leader]) -> (pcs: Vec<u64>)
    ensures
        pcs@ == taken_leaders(leaders@, leaders@.len() as int),
{
    let mut pcs: Vec<u64> = Vec::new();
    assert(pcs@ =~= Seq::empty());
    let mut i: usize = 0;
    while i < leaders.len()
        invariant
            i <= leaders@.len(),
            pcs@ == taken_leaders(leaders@, i as int),
        decreases leaders@.len() - i,
    {
        let l: Leader = leaders[i];
        if l.emittable && (!l.back || !l.is_loop) {
            pcs.push(l.pc);
        }
        i = i + 1;
    }
    pcs
}

/// The record of RAM pages after the first `n` pages were marked.
pub open spec fn marked_pages(ram: JitPages, pages: Seq<PagePair>, n: int) -> JitPages
    decreases n,
{
    if n <= 0 {
        ram
    } else {
        let before = marked_pages(ram, pages, n - 1);
        match before.page_of(pages[n - 1].1) {
            Some(page) => JitPages { marked: before.marked.update(page, true), ..before },
            None => before,
        }
    }
}

/// The addresses of those of the first `n` pages whose marks are new.
pub open spec fn newly_of(ram: JitPages, pages: Seq<PagePair>, n: int) -> Seq<u64>
    decreases n,
{
    if n <= 0 {
        Seq::empty()
    } else if newly_marked(ram, pages, n - 1) {
        newly_of(ram, pages, n - 1).push(pages[n - 1].1)
    } else {
        newly_of(ram, pages, n - 1)
    }
}

/// Mark the pages that code is compiled from. Returns the addresses of those
/// that were not marked, for which the hart has to forget how to store.
pub fn mark_pages(ram: &mut JitPageState, pages: &[PagePair]) -> (newly: Vec<u64>)
    requires
        old(ram).wf(),
    ensures
        final(ram).wf(),
        final(ram)@ == marked_pages(old(ram)@, pages@, pages@.len() as int),
        final(ram)@.generation == old(ram)@.generation,
        newly@ == newly_of(old(ram)@, pages@, pages@.len() as int),
{
    let mut newly: Vec<u64> = Vec::new();
    let mut i: usize = 0;
    assert(newly@ =~= newly_of(ram@, pages@, 0));
    while i < pages.len()
        invariant
            i <= pages@.len(),
            ram.wf(),
            ram@ == marked_pages(old(ram)@, pages@, i as int),
            ram@.generation == old(ram)@.generation,
            newly@ == newly_of(old(ram)@, pages@, i as int),
        decreases pages@.len() - i,
    {
        let pa: u64 = pages[i].1;
        if ram.mark_address(pa) {
            newly.push(pa);
        }
        assert(pages@[i as int].1 == pa);
        i = i + 1;
    }
    newly
}

/// Whether marking the `k`-th page marks a page that was not.
pub open spec fn newly_marked(ram: JitPages, pages: Seq<PagePair>, k: int) -> bool {
    let before = marked_pages(ram, pages, k);
    match before.page_of(pages[k].1) {
        Some(page) => !before.marked[page],
        None => false,
    }
}

/// The write generations of the first `n` pages.
pub open spec fn generations_of(ram: JitPages, pages: Seq<PagePair>, n: int) -> Seq<u64>
    decreases n,
{
    if n <= 0 {
        Seq::empty()
    } else {
        generations_of(ram, pages, n - 1).push(ram.generation[ram_page(pages[n - 1].1) as int])
    }
}

/// Every page is one of RAM.
pub open spec fn pages_known(ram: JitPages, pages: Seq<PagePair>) -> bool {
    forall|k: int|
        0 <= k < pages.len() ==> (#[trigger] pages[k]).1 >= RAM_BASE && ram_page(pages[k].1)
            < ram.generation.len()
}

/// The write generation of each page, where every page is one of RAM.
pub fn code_page_generations(ram: &JitPageState, pages: &[PagePair]) -> (generations: Option<
    Vec<u64>,
>)
    requires
        ram.wf(),
    ensures
        generations is Some <==> pages_known(ram@, pages@),
        generations matches Some(g) ==> g@ == generations_of(ram@, pages@, pages@.len() as int),
{
    let mut generations: Vec<u64> = Vec::new();
    assert(generations@ =~= Seq::empty());
    let mut i: usize = 0;
    while i < pages.len()
        invariant
            i <= pages@.len(),
            ram.wf(),
            generations@ == generations_of(ram@, pages@, i as int),
            forall|k: int|
                0 <= k < i ==> (#[trigger] pages@[k]).1 >= RAM_BASE && ram_page(pages@[k].1)
                    < ram@.generation.len(),
        decreases pages@.len() - i,
    {
        let physical: u64 = pages[i].1;
        assert(pages@[i as int].1 == physical);
        if physical < RAM_BASE {
            return None;
        }
        match ram.page_generation((physical - RAM_BASE) / 0x1000) {
            Some(generation) => generations.push(generation),
            None => {
                return None;
            },
        }
        i = i + 1;
    }
    Some(generations)
}

/// Discovery after the first `n` pages are no longer behind.
pub open spec fn caught_up(v: DiscoveryView, aspace: u64, pages: Seq<PagePair>, n: int) -> DiscoveryView
    decreases n,
{
    if n <= 0 {
        v
    } else {
        let before = caught_up(v, aspace, pages, n - 1);
        DiscoveryView { missed: before.missed.remove((aspace, pages[n - 1].0)), ..before }
    }
}

impl JitView {
    /// The state after a region was handed to the compiler: its pages are
    /// claimed and no longer behind, and the wait of its lead page starts.
    pub open spec fn region_issued(
        self,
        ticket: u64,
        plan: RegionPlan,
        insn_count: u64,
    ) -> JitView {
        let n = plan.pages@.len() as int;
        let claimed = DiscoveryView {
            claims: self.pages.claims.claimed(ticket, plan.aspace, plan.pages@, n),
            ..self.pages
        };
        let behind = caught_up(claimed, plan.aspace, plan.pages@, n);
        JitView {
            pages: DiscoveryView {
                builds: behind.builds.insert(
                    (plan.aspace, plan.lead),
                    BuildRecord {
                        entries: plan.n_entries,
                        compiles: if plan.unproductive && plan.compiles < u32::MAX {
                            (plan.compiles + 1) as u32
                        } else {
                            plan.compiles
                        },
                        when: insn_count,
                    },
                ),
                ..behind
            },
            ..self
        }
    }
}

/// Whether a compilation is this region.
pub open spec fn is_region(
    kind: PendingJitKind,
    plan: RegionPlan,
    generations: Seq<u64>,
    entries: Seq<u64>,
) -> bool {
    kind matches PendingJitKind::Region(region) && {
        &&& region.aspace == plan.aspace
        &&& region.lead == plan.lead
        &&& region.pages@ == plan.pages@
        &&& region.page_generations@ == generations
        &&& region.entries@ == entries
    }
}

impl JitState {
    /// Hand a translated region to the compiler, if it may be. Execution
    /// continues on whatever is installed now until the region lands. Returns
    /// the ticket, and the addresses of pages for which the hart has to forget
    /// how to store.
    pub fn issue_region(
        &mut self,
        queue: &mut JitQueue,
        ram: &mut JitPageState,
        pacing: &mut BuildPacing,
        plan: &RegionPlan,
        entries: Vec<u64>,
        insn_count: u64,
    ) -> (issued: Option<(u64, Vec<u64>)>)
        requires
            old(self).wf(),
            old(queue).wf(),
            old(ram).wf(),
            pages_known(old(ram)@, plan.pages@),
        ensures
            final(self).wf(),
            final(queue).wf(),
            final(ram).wf(),
            issued is Some <==> old(queue)@.issue_allowed(),
            match issued {
                None => {
                    &&& final(self)@ == old(self)@
                    &&& final(queue)@ == old(queue)@
                    &&& final(ram)@ == old(ram)@
                    &&& *final(pacing) == *old(pacing)
                },
                Some((ticket, newly)) => {
                    &&& ticket == old(queue)@.next_ticket
                    &&& final(self)@ == old(self)@.region_issued(ticket, *plan, insn_count)
                    &&& final(queue)@.pending.len() == old(queue)@.pending.len() + 1
                    &&& is_region(
                        final(queue)@.pending.last().kind,
                        *plan,
                        generations_of(old(ram)@, plan.pages@, plan.pages@.len() as int),
                        entries@,
                    )
                    &&& final(queue)@ == old(queue)@.submitted(final(queue)@.pending.last().kind)
                    &&& final(ram)@ == marked_pages(
                        old(ram)@,
                        plan.pages@,
                        plan.pages@.len() as int,
                    )
                    &&& *final(pacing) == (BuildPacing {
                        last_build: insn_count,
                        ..*old(pacing)
                    })
                    &&& newly@ == newly_of(old(ram)@, plan.pages@, plan.pages@.len() as int)
                },
            },
    {
        if !queue.issue_allowed() {
            return None;
        }
        let ghost was = self@;
        let pages: &[PagePair] = plan.pages.as_slice();
        let newly: Vec<u64> = mark_pages(ram, pages);
        proof {
            lemma_generations(old(ram)@, ram@, pages@, pages@.len() as int);
        }
        let generations: Vec<u64> = match code_page_generations(ram, pages) {
            Some(generations) => generations,
            None => {
                assert(false);
                return None;
            },
        };
        let kind = PendingJitKind::Region(
            PendingRegion {
                aspace: plan.aspace,
                lead: plan.lead,
                pages: copied_pages(pages),
                page_generations: generations,
                entries,
            },
        );
        let ticket: u64 = match queue.submit(kind) {
            Some(ticket) => ticket,
            None => {
                assert(false);
                return None;
            },
        };
        // Every page the region covers is claimed by the latest pending build.
        // A newer overlapping build supersedes this ticket without losing the
        // state that existed before either build started.
        self.pages.claim_pending_superblock(ticket, plan.aspace, pages);
        let ghost claimed = self@.pages;
        let mut i: usize = 0;
        while i < pages.len()
            invariant
                i <= pages@.len(),
                self.wf(),
                self@ == (JitView {
                    pages: caught_up(claimed, plan.aspace, pages@, i as int),
                    ..was
                }),
            decreases pages@.len() - i,
        {
            self.pages.sb_missed.remove(&(plan.aspace, pages[i].0));
            i = i + 1;
        }
        let mut compiles: u32 = plan.compiles;
        if plan.unproductive {
            compiles = compiles.saturating_add(1);
        }
        self.pages.sb_gen.insert(
            (plan.aspace, plan.lead),
            BuildRecord { entries: plan.n_entries, compiles, when: insn_count },
        );
        pacing.last_build = insn_count;
        Some((ticket, newly))
    }

    /// The plan of a first build, or of a rebuild that its misses ask for. Only
    /// a rebuild that covers nothing new counts against the allowance: a page
    /// whose hot set is still growing must be able to keep up.
    pub fn plan_superblock(
        &self,
        aspace: u64,
        vpage: u64,
        pa_page: u64,
        probes: &[(u64, Option<u64>)],
        ram_len: usize,
    ) -> (plan: RegionPlan)
        ensures
            plan.aspace == aspace,
            plan.lead == vpage,
            plan.pages@ == ({
                let pages = build_pages(
                    self@.pages,
                    aspace,
                    vpage,
                    pa_page,
                    probes@,
                    ram_len as nat,
                );
                pages_in_order(pages, pages.len() as int)
            }),
            plan.compiles == self@.pages.build_of((aspace, vpage)).compiles,
            plan.n_entries == list_at(self@.pages.entries, (aspace, vpage)).len(),
            plan.unproductive == (plan.n_entries <= self@.pages.build_of(
                (aspace, vpage),
            ).entries),
            !plan.regs_in_memory,
    {
        let pages: Vec<PagePair> = self.select_build_pages(aspace, vpage, pa_page, probes, ram_len);
        let record: BuildRecord = self.pages.build_of(&(aspace, vpage));
        let n_entries: usize = match self.pages.page_entries.get(&(aspace, vpage)) {
            Some(list) => list.len(),
            None => 0,
        };
        RegionPlan {
            aspace,
            lead: vpage,
            pages: sort_pages(pages.as_slice()),
            compiles: record.compiles,
            n_entries,
            unproductive: n_entries <= record.entries,
            regs_in_memory: false,
        }
    }
}

proof fn lemma_generations(a: JitPages, b: JitPages, pages: Seq<PagePair>, n: int)
    requires
        a.generation == b.generation,
    ensures
        generations_of(a, pages, n) == generations_of(b, pages, n),
    decreases n,
{
    if n > 0 {
        lemma_generations(a, b, pages, n - 1);
    }
}

// ---- laws ----------------------------------------------------------------

/// The wait between builds of a page never shrinks with the number of builds,
/// and never exceeds the wait after the sixth.
pub proof fn law_cooldown_grows(a: u32, b: u32)
    requires
        a <= b,
    ensures
        cooldown_of(a) <= cooldown_of(b) <= 64 * SB_PAGE_COOLDOWN,
{
    let (x, y) = (
        if a < 6 {
            a as int
        } else {
            6
        },
        if b < 6 {
            b as int
        } else {
            6
        },
    );
    lemma_doubled(SB_PAGE_COOLDOWN as int, x, y);
    lemma_doubled(SB_PAGE_COOLDOWN as int, y, 6);
    reveal_with_fuel(doubled, 7);
}

proof fn lemma_doubled(v: int, a: int, b: int)
    requires
        v >= 0,
        0 <= a <= b,
    ensures
        0 <= doubled(v, a) <= doubled(v, b),
    decreases b,
{
    if a < b {
        lemma_doubled(v, a, b - 1);
    } else if a > 0 {
        lemma_doubled(v, a - 1, b - 1);
    }
}

/// A page whose region was given up is not built again: its allowance is spent
/// whatever becomes hot on it.
pub proof fn law_demoted_pages_are_not_rebuilt(
    v: DiscoveryView,
    aspace: u64,
    page: PagePair,
    n_entries: int,
    insn_count: u64,
)
    requires
        v.claims.superblocked.contains((aspace, page.0)),
        0 <= n_entries <= crate::jit::regions::SPENT_ENTRIES,
    ensures
        !wants_superblock(
            crate::jit::regions::spent(v, aspace, seq![page], 1),
            (aspace, page.0),
            n_entries,
            insn_count,
        ),
{
    let before = crate::jit::regions::spent(v, aspace, seq![page], 0);
    assert(before == v);
}

/// A region never grows beyond its limit, keeps the pages that it has, and covers
/// no page twice that it did not.
pub proof fn law_extension_keeps_its_pages(
    v: JitView,
    aspace: u64,
    pages: Seq<PagePair>,
    targets: Seq<(u64, u32)>,
    ram_len: nat,
    n: int,
)
    requires
        pages.len() <= MAX_EXT_REGION_PAGES,
    ensures
        extended(v, aspace, pages, targets, ram_len, n).len() <= MAX_EXT_REGION_PAGES,
        extended(v, aspace, pages, targets, ram_len, n).len() >= pages.len(),
        extended(v, aspace, pages, targets, ram_len, n).subrange(0, pages.len() as int) =~= pages,
    decreases n,
{
    if n > 0 {
        law_extension_keeps_its_pages(v, aspace, pages, targets, ram_len, n - 1);
        let before = extended(v, aspace, pages, targets, ram_len, n - 1);
        let now = extended(v, aspace, pages, targets, ram_len, n);
        assert forall|i: int| 0 <= i < pages.len() implies now.subrange(0, pages.len() as int)[i]
            == pages[i] by {
            assert(before.subrange(0, pages.len() as int)[i] == pages[i]);
        }
    }
}

} // verus!
