//! What is handed to the compiler: page modules, staged traces and batches.

use vstd::prelude::*;
use crate::bytes::{push_all, push_zeros};
use crate::jit::block::{
    copied, page_base, page_of, prior_view, JitBlock, LivePageModule, ModuleView,
    PageModuleDecision, PageModuleIssue, PageModuleSource, PageModuleState, PagePair, PendingBatch,
    PendingBlock, PendingJitKind, PendingView,
};
use crate::jit::builds::{
    code_page_generations, generations_of, mark_pages, marked_pages, newly_marked, newly_of,
    page_in_ram, pages_known, Leader,
};
use crate::jit::code::{ram_page, CodeView, Decision};
use crate::jit::index::{is_sorted_set_of, listed, sorted_set, PageKey};
use crate::jit::landing::{find_page, kind_ok, page_at, pages_ok, plain, plain_block};
use crate::jit::pages::list_at;
use crate::jit::policy::{JitPolicy, TlbFillPolicy};
use crate::jit::queue::{compiles_pc, JitQueue, QueueView};
use crate::jit::state::{staged, tlb_fill_on, JitState, JitView, StagedBlock};
use crate::ram::{checked_ram_range, JitPageState, JitPages, RAM_BASE};

verus! {

broadcast use vstd::std_specs::hash::group_hash_axioms;

/// Hot roots before a page is compiled as a module: two independently hot roots
/// amortize the page module's compilation cost.
pub const PAGE_MODULE_THRESHOLD: usize = 2;

/// Most bodies of a page module: dense modules cost more to compile than they
/// save in host registrations.
pub const PAGE_MODULE_MAX_LEADERS: usize = 64;

// ---- page modules --------------------------------------------------------

/// What to do about a hot pc, as far as the module of its page is concerned.
#[derive(Debug)]
pub enum ModuleRequest {
    /// Compile it on its own.
    Individual,
    /// The module is on its way.
    Awaiting,
    /// Build the module.
    Build(ModulePlan),
}

/// A page module that is to be built.
#[derive(Debug)]
pub struct ModulePlan {
    pub source: PageModuleSource,
    /// The module that it replaces.
    pub prior: Option<LivePageModule>,
    /// The hot roots of the page.
    pub seeds: Vec<u64>,
}

impl JitView {
    /// The code of a page as a module would be compiled from it.
    pub open spec fn module_source(self, policy: JitPolicy, ram: JitPages, pa_page: u64) -> PageModuleSource {
        PageModuleSource {
            physical_page: ram_page(pa_page),
            generation: ram.generation[ram_page(pa_page) as int],
            tlb_fill: policy.tlb_fill == TlbFillPolicy::On || (policy.tlb_fill
                == TlbFillPolicy::Auto && self.bails.auto_enabled),
        }
    }

    /// Whether the module of a page comes into question at all.
    pub open spec fn module_in_question(
        self,
        policy: JitPolicy,
        queue: QueueView,
        ram: JitPages,
        key: PageKey,
        pa_page: u64,
        usable: bool,
    ) -> bool {
        &&& policy.page_modules
        &&& list_at(self.pages.hot, key).len() >= PAGE_MODULE_THRESHOLD
        &&& queue.issue_allowed()
        &&& pa_page >= RAM_BASE
        &&& ram_page(pa_page) < ram.generation.len()
        &&& usable
    }
}

impl JitState {
    /// What to do about the hot pc `pc`, whose page lies at `pa_page`, as far as
    /// the module of its page is concerned. `usable` says whether the code at
    /// `pc` can be translated and heads no loop.
    pub fn request_page_module(
        &self,
        policy: &JitPolicy,
        queue: &JitQueue,
        ram: &JitPageState,
        aspace: u64,
        pc: u64,
        pa_page: u64,
        usable: bool,
    ) -> (request: ModuleRequest)
        requires
            ram.wf(),
        ensures
            ({
                let key = (aspace, page_base(pc));
                let source = self@.module_source(*policy, ram@, pa_page);
                if !self@.module_in_question(*policy, queue@, ram@, key, pa_page, usable) {
                    request is Individual
                } else {
                    match self@.code.module_decision(key, source) {
                        Decision::Individual => request is Individual,
                        Decision::Awaiting => request is Awaiting,
                        Decision::Build(prior) => request matches ModuleRequest::Build(plan) && {
                            &&& plan.source == source
                            &&& prior_view(plan.prior) == prior
                            &&& plan.seeds@ == list_at(self@.pages.hot, key)
                        },
                    }
                }
            }),
    {
        let key: PageKey = (aspace, page_of(pc));
        if !policy.page_modules {
            return ModuleRequest::Individual;
        }
        let seeds: Vec<u64> = self.pages.hot_entries_of(&key);
        if seeds.len() < PAGE_MODULE_THRESHOLD {
            return ModuleRequest::Individual;
        }
        if !queue.issue_allowed() {
            return ModuleRequest::Individual;
        }
        if pa_page < RAM_BASE {
            return ModuleRequest::Individual;
        }
        let physical_page: u64 = (pa_page - RAM_BASE) / 0x1000;
        let generation: u64 = match ram.page_generation(physical_page) {
            Some(generation) => generation,
            None => {
                return ModuleRequest::Individual;
            },
        };
        let (_, auto_enabled): (u64, bool) = self.bails.counts();
        let source = PageModuleSource {
            physical_page,
            generation,
            tlb_fill: tlb_fill_on(policy, auto_enabled),
        };
        if !usable {
            return ModuleRequest::Individual;
        }
        match self.code.page_module_decision(key, source) {
            PageModuleDecision::Individual => ModuleRequest::Individual,
            PageModuleDecision::Awaiting => ModuleRequest::Awaiting,
            PageModuleDecision::Build(prior) => ModuleRequest::Build(
                ModulePlan { source, prior, seeds },
            ),
        }
    }
}

/// Entries with one more, where there is room and it is not there.
pub open spec fn with_leader(entries: Seq<u64>, pc: u64, usable: bool) -> Seq<u64> {
    if entries.len() < PAGE_MODULE_MAX_LEADERS && usable && !entries.contains(pc) {
        entries.push(pc)
    } else {
        entries
    }
}

/// Entries with the usable ones among the first `n` candidates.
pub open spec fn with_leaders(
    entries: Seq<u64>,
    candidates: Seq<u64>,
    usable: Seq<bool>,
    n: int,
) -> Seq<u64>
    decreases n,
{
    if n <= 0 {
        entries
    } else {
        with_leader(
            with_leaders(entries, candidates, usable, n - 1),
            candidates[n - 1],
            usable[n - 1],
        )
    }
}

/// Add the usable ones of some candidates, as far as there is room. Returns how
/// many entries there are.
pub fn add_leaders(entries: &mut Vec<u64>, candidates: &[u64], usable: &[bool]) -> (n: usize)
    requires
        candidates@.len() == usable@.len(),
    ensures
        final(entries)@ == with_leaders(
            old(entries)@,
            candidates@,
            usable@,
            candidates@.len() as int,
        ),
        n == final(entries)@.len(),
{
    let mut i: usize = 0;
    while i < candidates.len()
        invariant
            i <= candidates@.len(),
            candidates@.len() == usable@.len(),
            entries@ == with_leaders(old(entries)@, candidates@, usable@, i as int),
        decreases candidates@.len() - i,
    {
        let pc: u64 = candidates[i];
        if entries.len() < PAGE_MODULE_MAX_LEADERS && usable[i] && !listed(
            entries.as_slice(),
            pc,
        ) {
            entries.push(pc);
        }
        i = i + 1;
    }
    entries.len()
}

/// The bodies of a page module that are traced: the pc that asked for it, then
/// the other hot roots that are usable.
pub fn trace_entries(pc: u64, seeds: &[u64], usable: &[bool]) -> (entries: Vec<u64>)
    requires
        seeds@.len() == usable@.len(),
    ensures
        entries@ == with_leaders(seq![pc], seeds@, usable@, seeds@.len() as int),
{
    let mut entries: Vec<u64> = Vec::new();
    entries.push(pc);
    assert(entries@ =~= seq![pc]);
    add_leaders(&mut entries, seeds, usable);
    entries
}

/// Add discovered leaders to the bodies of a page module: those that can be
/// translated and head no loop.
pub fn add_discovered(entries: &mut Vec<u64>, found: &[Leader])
    ensures
        final(entries)@ == with_discovered(old(entries)@, found@, found@.len() as int),
{
    let mut i: usize = 0;
    while i < found.len()
        invariant
            i <= found@.len(),
            entries@ == with_discovered(old(entries)@, found@, i as int),
        decreases found@.len() - i,
    {
        let l: Leader = found[i];
        if entries.len() < PAGE_MODULE_MAX_LEADERS && !listed(entries.as_slice(), l.pc)
            && l.emittable && !(l.back && l.is_loop) {
            entries.push(l.pc);
        }
        i = i + 1;
    }
}

/// Entries with those of the first `n` discovered leaders that a module takes.
pub open spec fn with_discovered(entries: Seq<u64>, found: Seq<Leader>, n: int) -> Seq<u64>
    decreases n,
{
    if n <= 0 {
        entries
    } else {
        with_leader(with_discovered(entries, found, n - 1), found[n - 1].pc, found[n - 1].taken())
    }
}

// ---- translated bodies ---------------------------------------------------

/// What the translator says of one body.
#[derive(Debug)]
pub struct Translated {
    pub pc: u64,
    pub n_insns: u32,
    pub uses_fp: bool,
    pub mix: [u16; 5],
    pub mem: [u16; 10],
    pub control: [u16; 3],
    pub alu: [u16; 5],
    /// The guest addresses that it was compiled from, or (0, 0) where it lies
    /// wholly at its entry.
    pub span: (u64, u64),
    pub seeds: Vec<u64>,
    pub trace_pcs: Vec<u64>,
}

impl Translated {
    /// The block of a body at a physical address, before it has a slot.
    pub open spec fn block_at(self, pa: u64) -> JitBlock {
        JitBlock {
            fp: self.uses_fp,
            idx: (-1) as i32,
            n: self.n_insns,
            mix: self.mix,
            mem: self.mem,
            control: self.control,
            alu: self.alu,
            pa,
            last_used: 0,
        }
    }

    fn block(&self, pa: u64) -> (block: JitBlock)
        ensures
            block == self.block_at(pa),
    {
        JitBlock {
            fp: self.uses_fp,
            idx: -1,
            n: self.n_insns,
            mix: self.mix,
            mem: self.mem,
            control: self.control,
            alu: self.alu,
            pa,
            last_used: 0,
        }
    }

    /// The addresses that the body spans, `least` of them where it lies wholly
    /// at its entry.
    pub open spec fn bounds(self, least: u64) -> (u64, int) {
        if self.span.0 == 0 && self.span.1 == 0 {
            (self.pc, self.pc + least)
        } else {
            (self.span.0, self.span.1 as int)
        }
    }
}

/// The pages from `va` up to `last`, if all of them are there.
pub open spec fn span_from(source: Seq<PagePair>, va: u64, last: u64) -> Option<Seq<PagePair>>
    decreases u64::MAX - va,
{
    match page_at(source, va, 0) {
        None => None,
        Some(i) => if va == last {
            Some(seq![(va, source[i].1)])
        } else if va > u64::MAX - 0x1000 {
            None
        } else {
            match span_from(source, (va + 0x1000) as u64, last) {
                Some(rest) => Some(seq![(va, source[i].1)] + rest),
                None => None,
            }
        },
    }
}

/// The pages that addresses from `lo` up to `hi` lie on, if all of them are
/// there and `hi` is an address.
pub open spec fn span_of(source: Seq<PagePair>, lo: u64, hi: int) -> Option<Seq<PagePair>> {
    if hi < 1 || hi > u64::MAX {
        None
    } else {
        span_from(source, page_base(lo), page_base((hi - 1) as u64))
    }
}

/// The pages that addresses from `lo` up to `hi` lie on, if all of them are
/// among `source`.
pub fn span_pages(source: &[PagePair], lo: u64, hi: u64) -> (pages: Option<Vec<PagePair>>)
    ensures
        match (pages, span_of(source@, lo, hi as int)) {
            (Some(a), Some(b)) => a@ == b,
            (None, None) => true,
            _ => false,
        },
        pages matches Some(p) ==> (pages_ok(source@) ==> pages_ok(p@)),
{
    if hi == 0 {
        return None;
    }
    let first: u64 = page_of(lo);
    let last: u64 = page_of(hi - 1);
    let mut pages: Vec<PagePair> = Vec::new();
    let mut va: u64 = first;
    let ghost goal = span_from(source@, first, last);
    loop
        invariant
            goal == span_of(source@, lo, hi as int),
            match span_from(source@, va, last) {
                Some(rest) => goal is Some && goal->0 == pages@ + rest,
                None => goal is None,
            },
            pages_ok(source@) ==> pages_ok(pages@),
        decreases u64::MAX - va,
    {
        let at: usize = match find_page(source, va) {
            Some(at) => at,
            None => {
                return None;
            },
        };
        let ghost before = pages@;
        pages.push((va, source[at].1));
        assert(pages_ok(source@) ==> pages_ok(pages@)) by {
            if pages_ok(source@) {
                assert(source@[at as int].1 >= RAM_BASE);
                assert forall|k: int| 0 <= k < pages@.len() implies (#[trigger] pages@[k]).1
                    >= RAM_BASE && pages@[k].1 % 0x1000 == 0 by {
                    if k < before.len() {
                        assert(before[k].1 >= RAM_BASE);
                    }
                }
            }
        }
        if va == last {
            assert(pages@ =~= before + seq![(va, source@[at as int].1)]);
            return Some(pages);
        }
        match va.checked_add(0x1000) {
            Some(next) => {
                proof {
                    match span_from(source@, next, last) {
                        Some(rest) => {
                            assert(pages@ + rest =~= before + (seq![(va, source@[at as int].1)]
                                + rest));
                        },
                        None => {},
                    }
                }
                va = next;
            },
            None => {
                return None;
            },
        }
    }
}

/// Whether a block on its way is this body on these pages.
pub open spec fn is_pending(
    p: PendingView,
    t: Translated,
    aspace: u64,
    pa: u64,
    pages: Seq<PagePair>,
    ram: JitPages,
    missed: bool,
) -> bool {
    &&& p.aspace == aspace
    &&& p.pc == t.pc
    &&& p.block == t.block_at(pa)
    &&& p.pages == pages
    &&& p.page_generations == generations_of(ram, pages, pages.len() as int)
    &&& p.seeds == t.seeds@
    &&& p.missed_superblock == missed
}

/// A body on its way, where all its pages are pages of RAM.
fn pending_block(
    ram: &JitPageState,
    aspace: u64,
    t: &Translated,
    pa: u64,
    pages: Vec<PagePair>,
    trace_pcs: Vec<u64>,
    missed: bool,
) -> (p: Option<PendingBlock>)
    requires
        ram.wf(),
    ensures
        p is Some <==> pages_known(ram@, pages@),
        p matches Some(p) ==> is_pending(p@, *t, aspace, pa, pages@, ram@, missed)
            && p.trace_pcs@ == trace_pcs@,
{
    match code_page_generations(ram, pages.as_slice()) {
        None => None,
        Some(page_generations) => Some(
            PendingBlock {
                aspace,
                pc: t.pc,
                block: t.block(pa),
                pages,
                page_generations,
                seeds: copied(t.seeds.as_slice()),
                trace_pcs,
                missed_superblock: missed,
            },
        ),
    }
}

/// Where a body lies: its pages, and the physical address of its entry.
pub open spec fn placement(source: Seq<PagePair>, t: Translated, least: u64) -> Option<
    (Seq<PagePair>, u64),
> {
    let (lo, hi) = t.bounds(least);
    match span_of(source, lo, hi) {
        None => None,
        Some(pages) => match page_at(pages, page_base(t.pc), 0) {
            None => None,
            Some(i) => Some((pages, (pages[i].1 + t.pc % 0x1000) as u64)),
        },
    }
}

/// Where a body lies among the pages that it was compiled from.
fn place(source: &[PagePair], t: &Translated) -> (r: Option<(Vec<PagePair>, u64)>)
    requires
        pages_ok(source@),
    ensures
        match (r, placement(source@, *t, 2)) {
            (Some((pages, pa)), Some((p, a))) => pages@ == p && pa == a && pages_ok(pages@),
            (None, None) => true,
            _ => false,
        },
{
    let (lo, hi): (u64, u64) = if t.span.0 == 0 && t.span.1 == 0 {
        match t.pc.checked_add(2) {
            Some(hi) => (t.pc, hi),
            None => {
                return None;
            },
        }
    } else {
        t.span
    };
    let pages: Vec<PagePair> = match span_pages(source, lo, hi) {
        Some(pages) => pages,
        None => {
            return None;
        },
    };
    match find_page(pages.as_slice(), page_of(t.pc)) {
        None => None,
        Some(at) => {
            assert(pages@[at as int].1 % 0x1000 == 0);
            let pa: u64 = pages[at].1 + t.pc % 0x1000;
            Some((pages, pa))
        },
    }
}

/// What a body covers: the pcs of its trace and its seeds.
pub open spec fn covered_pcs(t: Translated) -> Seq<u64> {
    t.trace_pcs@ + t.seeds@
}

/// Prepare a translated trace: mark the pages it was compiled from, and note
/// what it covers. Returns the block, and the addresses of pages for which the
/// hart has to forget how to store.
pub fn stage_block(
    ram: &mut JitPageState,
    policy: &JitPolicy,
    aspace: u64,
    source: &[PagePair],
    body: u64,
    t: &Translated,
    missed: bool,
) -> (r: (Option<StagedBlock>, Vec<u64>))
    requires
        old(ram).wf(),
        pages_ok(source@),
    ensures
        final(ram).wf(),
        match placement(source@, *t, 2) {
            None => r.0 is None && r.1@.len() == 0 && final(ram)@ == old(ram)@,
            Some((pages, pa)) => {
                &&& final(ram)@ == marked_pages(old(ram)@, pages, pages.len() as int)
                &&& r.1@ == newly_of(old(ram)@, pages, pages.len() as int)
                &&& r.0 is Some <==> pages_known(old(ram)@, pages)
                &&& r.0 matches Some(s) ==> {
                    &&& s.body == body
                    &&& is_pending(
                        s.pending@,
                        *t,
                        aspace,
                        pa,
                        pages,
                        final(ram)@,
                        missed && t.n_insns < policy.trace_keep_min,
                    )
                    &&& is_sorted_set_of(s.pending.trace_pcs@, covered_pcs(*t))
                    &&& pages_ok(s.pending.pages@)
                }
            },
        },
{
    let (pages, pa): (Vec<PagePair>, u64) = match place(source, t) {
        Some(placed) => placed,
        None => {
            return (None, Vec::new());
        },
    };
    let newly: Vec<u64> = mark_pages(ram, pages.as_slice());
    let mut pcs: Vec<u64> = copied(t.trace_pcs.as_slice());
    let mut seeds: Vec<u64> = copied(t.seeds.as_slice());
    pcs.append(&mut seeds);
    assert(pcs@ =~= covered_pcs(*t));
    let trace_pcs: Vec<u64> = sorted_set(pcs.as_slice());
    let pending: Option<PendingBlock> = pending_block(
        ram,
        aspace,
        t,
        pa,
        pages,
        trace_pcs,
        missed && t.n_insns < policy.trace_keep_min,
    );
    match pending {
        None => (None, newly),
        Some(pending) => (Some(StagedBlock { body, pending }), newly),
    }
}

impl JitState {
    /// Put a prepared trace on the stage.
    pub fn push_staged(&mut self, s: StagedBlock)
        requires
            old(self).wf(),
        ensures
            final(self).wf(),
            final(self)@ == (JitView {
                stage: old(self)@.stage.push(s@),
                coverage: crate::jit::state::covered(
                    old(self)@.coverage,
                    s.pending.aspace,
                    s.pending.trace_pcs@,
                    s.pending.trace_pcs@.len() as int,
                ),
                ..old(self)@
            }),
    {
        let ghost was = self@;
        self.add_confirmed_coverage(&s.pending);
        self.confirmed_stage.push(s);
        assert(self@.stage =~= was.stage.push(s@));
    }

    /// Whether the code at `pc` is staged or being compiled.
    pub fn work_contains_pc(&self, queue: &JitQueue, aspace: u64, pc: u64) -> (r: bool)
        ensures
            r == work_contains(self@, queue@, aspace, pc),
    {
        let mut i: usize = 0;
        while i < self.confirmed_stage.len()
            invariant
                i <= self.confirmed_stage@.len(),
                forall|k: int|
                    0 <= k < i ==> !((#[trigger] self@.stage[k]).pending.aspace == aspace
                        && self@.stage[k].pending.pc == pc),
            decreases self.confirmed_stage@.len() - i,
        {
            assert(self@.stage[i as int] == self.confirmed_stage@[i as int]@);
            if self.confirmed_stage[i].pending.aspace == aspace
                && self.confirmed_stage[i].pending.pc == pc {
                assert(self@.stage[i as int].pending.pc == pc);
                return true;
            }
            i = i + 1;
        }
        queue.contains_pc(aspace, pc)
    }

    /// Whether the code at `pc` may be compiled now: nothing stands in the way,
    /// and it is neither compiled nor on its way.
    pub fn may_compile(&self, queue: &JitQueue, aspace: u64, pc: u64) -> (r: bool)
        ensures
            r == compilable(self@, queue@, aspace, pc),
    {
        queue.compilation_allowed() && queue.issue_allowed() && !self.code.cache.contains_key(&pc)
            && !self.work_contains_pc(queue, aspace, pc) && !self.covers(aspace, pc)
    }

    /// Hand the oldest staged traces to the compiler as one module, once there
    /// are enough of them and they may be. Returns the handles of their bodies
    /// and the ticket.
    pub fn submit_confirmed_stage(&mut self, queue: &mut JitQueue, policy: &JitPolicy) -> (issued:
        Option<(Vec<u64>, u64)>)
        requires
            old(self).wf(),
            old(queue).wf(),
        ensures
            final(self).wf(),
            final(queue).wf(),
            issued is Some <==> old(self)@.stage.len() >= policy.confirmed_batch_target && old(
                queue,
            )@.issue_allowed(),
            match issued {
                None => final(self)@ == old(self)@ && final(queue)@ == old(queue)@,
                Some((bodies, ticket)) => {
                    let n = policy.confirmed_batch_target as int;
                    &&& ticket == old(queue)@.next_ticket
                    &&& bodies@ == Seq::new(n as nat, |i: int| old(self)@.stage[i].body)
                    &&& final(self)@ == (JitView {
                        stage: old(self)@.stage.subrange(n, old(self)@.stage.len() as int),
                        ..old(self)@
                    })
                    &&& final(queue)@.pending.len() == old(queue)@.pending.len() + 1
                    &&& final(queue)@.pending.last().kind matches PendingJitKind::Batch(batch) && {
                        &&& batch.page_module is None
                        &&& batch.cell == old(queue)@.next_cell
                        &&& batch.sequence == old(queue)@.next_sequence
                        &&& batch.members@.len() == n
                        &&& forall|i: int|
                            0 <= i < n ==> (#[trigger] batch.members@[i])@ == old(
                                self,
                            )@.stage[i].pending
                    }
                    &&& final(queue)@ == old(queue)@.with_cell_claimed().submitted(
                        final(queue)@.pending.last().kind,
                    )
                },
            },
    {
        let target: usize = policy.confirmed_batch_target;
        if self.confirmed_stage.len() < target || !queue.issue_allowed() {
            return None;
        }
        let ghost was = self@;
        let ghost all = self.confirmed_stage@;
        let mut bodies: Vec<u64> = Vec::new();
        let mut members: Vec<PendingBlock> = Vec::new();
        let mut i: usize = 0;
        assert(all.subrange(0, all.len() as int) =~= all);
        while i < target
            invariant
                i <= target <= all.len(),
                self.wf(),
                was.stage == staged(all),
                self.confirmed_stage@ == all.subrange(i as int, all.len() as int),
                self@ == (JitView { stage: staged(self.confirmed_stage@), ..was }),
                bodies@.len() == i,
                members@.len() == i,
                forall|k: int| 0 <= k < i ==> #[trigger] bodies@[k] == was.stage[k].body,
                forall|k: int| 0 <= k < i ==> (#[trigger] members@[k])@ == was.stage[k].pending,
            decreases target - i,
        {
            let s: StagedBlock = self.confirmed_stage.remove(0);
            assert(s == all[i as int]);
            assert(was.stage[i as int] == s@);
            assert(self.confirmed_stage@ =~= all.subrange(i + 1, all.len() as int));
            bodies.push(s.body);
            members.push(s.pending);
            i = i + 1;
        }
        proof {
            assert(bodies@ =~= Seq::new(target as nat, |i: int| was.stage[i].body));
            assert(self@.stage =~= was.stage.subrange(target as int, was.stage.len() as int));
        }
        let cell: usize = queue.next_batch_cell();
        let sequence: u64 = queue.claim_cell(cell);
        let ticket: Option<u64> = queue.submit(
            PendingJitKind::Batch(PendingBatch { cell, sequence, members, page_module: None }),
        );
        match ticket {
            Some(ticket) => Some((bodies, ticket)),
            None => {
                assert(false);
                None
            },
        }
    }
}

/// Whether the code at `pc` may be compiled now.
pub open spec fn compilable(v: JitView, queue: QueueView, aspace: u64, pc: u64) -> bool {
    &&& queue.issue_allowed()
    &&& !v.code.cache.contains_key(pc)
    &&& !work_contains(v, queue, aspace, pc)
    &&& !v.coverage.contains_key((aspace, pc))
}

/// Whether the code at `pc` is staged or being compiled.
pub open spec fn work_contains(v: JitView, queue: QueueView, aspace: u64, pc: u64) -> bool {
    ||| exists|k: int|
        0 <= k < v.stage.len() && (#[trigger] v.stage[k]).pending.aspace == aspace
            && v.stage[k].pending.pc == pc
    ||| exists|i: int|
        0 <= i < queue.pending.len() && compiles_pc((#[trigger] queue.pending[i]).kind, aspace, pc)
}

impl QueueView {
    /// The state after the next cell was given to the next batch.
    pub open spec fn with_cell_claimed(self) -> QueueView {
        QueueView {
            next_cell: ((self.next_cell + 1) % crate::jit::queue::BATCH_CELLS as nat),
            ..self
        }.claimed_cell(self.next_cell as int)
    }
}

// ---- handing page modules and batches over -------------------------------

impl JitState {
    /// Hand a translated page module to the compiler. A translation that failed
    /// (`None`) is noted so that it is not tried again from the same code. Says
    /// what became of it, and returns the addresses of pages for which the hart
    /// has to forget how to store.
    pub fn issue_page_module(
        &mut self,
        queue: &mut JitQueue,
        ram: &mut JitPageState,
        aspace: u64,
        pc: u64,
        pa_page: u64,
        plan: ModulePlan,
        bodies: Option<Vec<Translated>>,
    ) -> (r: (PageModuleIssue, Vec<u64>))
        requires
            old(self).wf(),
            old(queue).wf(),
            old(ram).wf(),
            pa_page >= RAM_BASE,
            pa_page % 0x1000 == 0,
            ram_page(pa_page) < old(ram)@.generation.len(),
            bodies matches Some(b) ==> forall|k: int|
                0 <= k < b@.len() ==> page_base((#[trigger] b@[k]).pc) == page_base(pc),
        ensures
            final(self).wf(),
            final(queue).wf(),
            final(ram).wf(),
            ({
                let key = (aspace, page_base(pc));
                match bodies {
                    None => {
                        &&& r.0 == PageModuleIssue::Individual
                        &&& r.1@.len() == 0
                        &&& final(self)@ == (JitView {
                            code: old(self)@.code.module_failed(
                                key,
                                plan.source,
                                prior_view(plan.prior),
                            ),
                            ..old(self)@
                        })
                        &&& final(queue)@ == old(queue)@
                        &&& final(ram)@ == old(ram)@
                    },
                    Some(bodies) => if bodies@.len() < 2 || !old(queue)@.issue_allowed() {
                        &&& r.0 == PageModuleIssue::Individual
                        &&& r.1@.len() == 0
                        &&& final(self)@ == old(self)@
                        &&& final(queue)@ == old(queue)@
                        &&& final(ram)@ == old(ram)@
                    } else {
                        &&& r.0 == PageModuleIssue::Issued
                        &&& final(self)@ == (JitView {
                            code: CodeView {
                                modules: old(self)@.code.modules.insert(
                                    key,
                                    ModuleView::Pending {
                                        source: plan.source,
                                        ticket: old(queue)@.next_ticket,
                                        prior: prior_view(plan.prior),
                                    },
                                ),
                                ..old(self)@.code
                            },
                            ..old(self)@
                        })
                        &&& final(queue)@.pending.len() == old(queue)@.pending.len() + 1
                        &&& final(queue)@.pending.last().kind matches PendingJitKind::Batch(batch)
                            && {
                            &&& batch.page_module == Some(key)
                            &&& batch.cell == old(queue)@.next_cell
                            &&& batch.sequence == old(queue)@.next_sequence
                            &&& batch.members@.len() == bodies@.len()
                            &&& kind_ok(PendingJitKind::Batch(batch))
                            &&& forall|k: int|
                                0 <= k < bodies@.len() ==> is_pending(
                                    (#[trigger] batch.members@[k])@,
                                    bodies@[k],
                                    aspace,
                                    (pa_page + bodies@[k].pc % 0x1000) as u64,
                                    seq![(page_base(pc), pa_page)],
                                    old(ram)@,
                                    false,
                                )
                        }
                        &&& final(queue)@ == old(queue)@.with_cell_claimed().submitted(
                            final(queue)@.pending.last().kind,
                        )
                        &&& final(ram)@ == marked_pages(
                            old(ram)@,
                            seq![(page_base(pc), pa_page)],
                            1,
                        )
                        &&& r.1@ == newly_of(old(ram)@, seq![(page_base(pc), pa_page)], 1)
                    },
                }
            }),
    {
        let vpage: u64 = page_of(pc);
        let key: PageKey = (aspace, vpage);
        let bodies: Vec<Translated> = match bodies {
            Some(bodies) => bodies,
            None => {
                self.code.record_page_module_failure(key, plan.source, plan.prior);
                return (PageModuleIssue::Individual, Vec::new());
            },
        };
        if bodies.len() < 2 || !queue.issue_allowed() {
            return (PageModuleIssue::Individual, Vec::new());
        }
        let ghost own = seq![(page_base(pc), pa_page)];
        let mut members: Vec<PendingBlock> = Vec::new();
        let mut i: usize = 0;
        while i < bodies.len()
            invariant
                i <= bodies@.len(),
                ram.wf(),
                ram@ == old(ram)@,
                own == seq![(page_base(pc), pa_page)],
                vpage == page_base(pc),
                pa_page >= RAM_BASE,
                pa_page % 0x1000 == 0,
                ram_page(pa_page) < ram@.generation.len(),
                members@.len() == i,
                forall|k: int|
                    0 <= k < i ==> is_pending(
                        (#[trigger] members@[k])@,
                        bodies@[k],
                        aspace,
                        (pa_page + bodies@[k].pc % 0x1000) as u64,
                        own,
                        old(ram)@,
                        false,
                    ),
            decreases bodies@.len() - i,
        {
            let mut pages: Vec<PagePair> = Vec::new();
            pages.push((vpage, pa_page));
            assert(pages@ =~= own);
            assert(pages_known(ram@, pages@)) by {
                assert(pages@[0] == (vpage, pa_page));
            }
            let pa: u64 = pa_page + bodies[i].pc % 0x1000;
            match pending_block(ram, aspace, &bodies[i], pa, pages, Vec::new(), false) {
                Some(member) => members.push(member),
                None => {
                    assert(false);
                    return (PageModuleIssue::Individual, Vec::new());
                },
            }
            i = i + 1;
        }
        let cell: usize = queue.next_batch_cell();
        let sequence: u64 = queue.claim_cell(cell);
        let mut pages: Vec<PagePair> = Vec::new();
        pages.push((vpage, pa_page));
        assert(pages@ =~= own);
        let newly: Vec<u64> = mark_pages(ram, pages.as_slice());
        let batch = PendingBatch { cell, sequence, members, page_module: Some(key) };
        assert(kind_ok(PendingJitKind::Batch(batch))) by {
            assert forall|k: int| 0 <= k < batch.members@.len() implies pages_ok(
                (#[trigger] batch.members@[k]).pages@,
            ) && batch.members@[k].pages@.len() <= 1 by {
                assert(batch.members@[k]@.pages == own);
                assert(own[0] == (page_base(pc), pa_page));
            }
        }
        match queue.submit(PendingJitKind::Batch(batch)) {
            None => {
                assert(false);
                (PageModuleIssue::Individual, newly)
            },
            Some(ticket) => {
                self.code.set_page_module(
                    key,
                    PageModuleState::Pending { source: plan.source, ticket, prior: plan.prior },
                );
                (PageModuleIssue::Issued, newly)
            },
        }
    }
}

/// Whether every one of the first `n` bodies has its place in RAM.
pub open spec fn all_placed(ram: JitPages, source: Seq<PagePair>, bodies: Seq<Translated>, n: int) -> bool {
    forall|k: int|
        0 <= k < n ==> (placement(source, #[trigger] bodies[k], 2) matches Some((pages, _))
            && pages_known(ram, pages))
}

/// The record of RAM pages after the pages of the first `n` blocks were marked.
pub open spec fn marked_blocks(ram: JitPages, blocks: Seq<PendingBlock>, n: int) -> JitPages
    decreases n,
{
    if n <= 0 {
        ram
    } else {
        let pages = blocks[n - 1].pages@;
        marked_pages(marked_blocks(ram, blocks, n - 1), pages, pages.len() as int)
    }
}

/// The addresses of pages of the first `n` blocks whose marks are new.
pub open spec fn newly_of_blocks(ram: JitPages, blocks: Seq<PendingBlock>, n: int) -> Seq<u64>
    decreases n,
{
    if n <= 0 {
        Seq::empty()
    } else {
        let pages = blocks[n - 1].pages@;
        newly_of_blocks(ram, blocks, n - 1) + newly_of(
            marked_blocks(ram, blocks, n - 1),
            pages,
            pages.len() as int,
        )
    }
}

/// Hand several bodies to the compiler as one module, where there are at least
/// two of them, each has its place in RAM, and they may be handed over. Returns
/// the ticket, and the addresses of pages for which the hart has to forget how
/// to store.
pub fn issue_batch(
    queue: &mut JitQueue,
    ram: &mut JitPageState,
    aspace: u64,
    source: &[PagePair],
    bodies: &[Translated],
    cell: usize,
) -> (issued: Option<(u64, Vec<u64>)>)
    requires
        old(queue).wf(),
        old(ram).wf(),
        pages_ok(source@),
        cell < crate::jit::queue::BATCH_CELLS,
    ensures
        final(queue).wf(),
        final(ram).wf(),
        issued is Some <==> bodies@.len() >= 2 && old(queue)@.issue_allowed() && all_placed(
            old(ram)@,
            source@,
            bodies@,
            bodies@.len() as int,
        ),
        match issued {
            None => final(queue)@ == old(queue)@ && final(ram)@ == old(ram)@,
            Some((ticket, newly)) => {
                &&& ticket == old(queue)@.next_ticket
                &&& final(queue)@.pending.len() == old(queue)@.pending.len() + 1
                &&& final(queue)@.pending.last().kind matches PendingJitKind::Batch(batch) && {
                    &&& batch.page_module is None
                    &&& batch.cell == cell
                    &&& batch.sequence == old(queue)@.next_sequence
                    &&& batch.members@.len() == bodies@.len()
                    &&& kind_ok(PendingJitKind::Batch(batch))
                    &&& forall|k: int|
                        0 <= k < bodies@.len() ==> is_pending(
                            (#[trigger] batch.members@[k])@,
                            bodies@[k],
                            aspace,
                            (placement(source@, bodies@[k], 2)->0).1,
                            (placement(source@, bodies@[k], 2)->0).0,
                            old(ram)@,
                            false,
                        )
                    &&& final(ram)@ == marked_blocks(
                        old(ram)@,
                        batch.members@,
                        batch.members@.len() as int,
                    )
                    &&& newly@ == newly_of_blocks(
                        old(ram)@,
                        batch.members@,
                        batch.members@.len() as int,
                    )
                }
                &&& final(queue)@ == old(queue)@.claimed_cell(cell as int).submitted(
                    final(queue)@.pending.last().kind,
                )
            },
        },
{
    if bodies.len() < 2 || !queue.issue_allowed() {
        return None;
    }
    let mut members: Vec<PendingBlock> = Vec::new();
    let mut i: usize = 0;
    while i < bodies.len()
        invariant
            i <= bodies@.len(),
            ram.wf(),
            ram@ == old(ram)@,
            queue@ == old(queue)@,
            queue.wf(),
            pages_ok(source@),
            members@.len() == i,
            all_placed(ram@, source@, bodies@, i as int),
            forall|k: int|
                0 <= k < i ==> is_pending(
                    (#[trigger] members@[k])@,
                    bodies@[k],
                    aspace,
                    (placement(source@, bodies@[k], 2)->0).1,
                    (placement(source@, bodies@[k], 2)->0).0,
                    old(ram)@,
                    false,
                ),
            forall|k: int| 0 <= k < i ==> pages_ok((#[trigger] members@[k]).pages@),
        decreases bodies@.len() - i,
    {
        let (pages, pa): (Vec<PagePair>, u64) = match place(source, &bodies[i]) {
            Some(placed) => placed,
            None => {
                assert(placement(source@, bodies@[i as int], 2) is None);
                return None;
            },
        };
        match pending_block(ram, aspace, &bodies[i], pa, pages, Vec::new(), false) {
            Some(member) => {
                assert(member.pages@ == member@.pages);
                members.push(member);
            },
            None => {
                assert(placement(source@, bodies@[i as int], 2) is Some);
                return None;
            },
        }
        i = i + 1;
    }
    let mut newly: Vec<u64> = Vec::new();
    assert(newly@ =~= newly_of_blocks(ram@, members@, 0));
    let mut i: usize = 0;
    while i < members.len()
        invariant
            i <= members@.len(),
            ram.wf(),
            ram@ == marked_blocks(old(ram)@, members@, i as int),
            newly@ == newly_of_blocks(old(ram)@, members@, i as int),
        decreases members@.len() - i,
    {
        let mut more: Vec<u64> = mark_pages(ram, members[i].pages.as_slice());
        newly.append(&mut more);
        i = i + 1;
    }
    let sequence: u64 = queue.claim_cell(cell);
    let batch = PendingBatch { cell, sequence, members, page_module: None };
    match queue.submit(PendingJitKind::Batch(batch)) {
        Some(ticket) => Some((ticket, newly)),
        None => {
            assert(false);
            None
        },
    }
}

/// Hand one body to the compiler. `len` is how many bytes of code it spans at
/// its entry, where it lies wholly there. Its pages are marked as soon as they
/// are known. Returns the ticket where it was handed over, and the addresses of
/// pages for which the hart has to forget how to store.
pub fn issue_block(
    queue: &mut JitQueue,
    ram: &mut JitPageState,
    policy: &JitPolicy,
    aspace: u64,
    source: &[PagePair],
    t: &Translated,
    pa: u64,
    len: u64,
    missed: bool,
) -> (r: (Option<u64>, Vec<u64>))
    requires
        old(queue).wf(),
        old(ram).wf(),
        pages_ok(source@),
    ensures
        final(queue).wf(),
        final(ram).wf(),
        ({
            let (lo, hi) = t.bounds(
                if len < 2 {
                    2
                } else {
                    len
                },
            );
            match span_of(source@, lo, hi) {
                None => {
                    &&& r.0 is None
                    &&& r.1@.len() == 0
                    &&& final(queue)@ == old(queue)@
                    &&& final(ram)@ == old(ram)@
                },
                Some(pages) => {
                    &&& final(ram)@ == marked_pages(old(ram)@, pages, pages.len() as int)
                    &&& r.1@ == newly_of(old(ram)@, pages, pages.len() as int)
                    &&& r.0 is Some <==> pages_known(old(ram)@, pages) && old(
                        queue,
                    )@.issue_allowed()
                    &&& match r.0 {
                        None => final(queue)@ == old(queue)@,
                        Some(ticket) => {
                            &&& ticket == old(queue)@.next_ticket
                            &&& final(queue)@.pending.len() == old(queue)@.pending.len() + 1
                            &&& final(queue)@.pending.last().kind matches PendingJitKind::Block(p)
                                && pages_ok(p.pages@) && is_pending(
                                p@,
                                *t,
                                aspace,
                                pa,
                                pages,
                                final(ram)@,
                                missed && t.n_insns < policy.trace_keep_min,
                            )
                            &&& final(queue)@ == old(queue)@.submitted(
                                final(queue)@.pending.last().kind,
                            )
                        },
                    }
                },
            }
        }),
{
    let least: u64 = if len < 2 {
        2
    } else {
        len
    };
    let (lo, hi): (u64, u64) = if t.span.0 == 0 && t.span.1 == 0 {
        match t.pc.checked_add(least) {
            Some(hi) => (t.pc, hi),
            None => {
                return (None, Vec::new());
            },
        }
    } else {
        t.span
    };
    let pages: Vec<PagePair> = match span_pages(source, lo, hi) {
        Some(pages) => pages,
        None => {
            return (None, Vec::new());
        },
    };
    let newly: Vec<u64> = mark_pages(ram, pages.as_slice());
    let pending: Option<PendingBlock> = pending_block(
        ram,
        aspace,
        t,
        pa,
        pages,
        Vec::new(),
        missed && t.n_insns < policy.trace_keep_min,
    );
    match pending {
        None => (None, newly),
        Some(p) => {
            assert(p.pages@ == p@.pages);
            (queue.submit(PendingJitKind::Block(p)), newly)
        },
    }
}

impl JitState {
    /// Note that the code at `pc` cannot be compiled from these bytes. The note
    /// is verified like a block, so that it does not poison another address
    /// space, and goes with the page when the bytes are overwritten. Says whether
    /// the page's mark is new.
    pub fn blacklist(&mut self, ram: &mut JitPageState, aspace: u64, pc: u64, pa: u64, missed: bool) -> (newly:
        bool)
        requires
            old(self).wf(),
            old(ram).wf(),
        ensures
            final(self).wf(),
            final(ram).wf(),
            final(ram)@ == marked_pages(old(ram)@, seq![(pc, pa)], 1),
            newly == newly_marked(old(ram)@, seq![(pc, pa)], 0),
            ({
                let key = (aspace, page_base(pc));
                let noted = if missed {
                    JitView {
                        pages: crate::jit::pages::DiscoveryView {
                            missed: old(self)@.pages.missed.insert(
                                key,
                                if old(self)@.pages.missed_of(key) == u32::MAX {
                                    u32::MAX
                                } else {
                                    (old(self)@.pages.missed_of(key) + 1) as u32
                                },
                            ),
                            ..old(self)@.pages
                        },
                        ..old(self)@
                    }
                } else {
                    old(self)@
                };
                final(self)@ == noted.inserted(pc, Some(plain((-1) as i32, pa, 0)))
            }),
    {
        if missed {
            self.pages.note_missed((aspace, page_of(pc)));
        }
        proof {
            assert(marked_pages(ram@, seq![(pc, pa)], 0) == ram@);
        }
        let newly: bool = ram.mark_address(pa);
        self.cache_insert(pc, Some(plain_block(-1, pa, 0)));
        newly
    }
}

// ---- trace windows -------------------------------------------------------

/// Pages of a wide window.
pub const TRACE_WIN_PAGES: u64 = 64;

/// Windows that are kept.
pub const TRACE_WIN_CACHE: usize = 8;

/// Guest code around a hot pc, gathered into one contiguous buffer so that
/// traces can follow calls across page boundaries.
#[derive(Debug)]
pub struct TraceWindow {
    pub aspace: u64,
    pub map_gen: u32,
    pub boot_gen: u64,
    pub first_va: u64,
    /// (va, physical page) of every RAM-backed mapped page in the window;
    /// unmapped holes stay zero-filled in `buf` (invalid instructions, so
    /// a trace walking into one simply ends there).
    pub pages: Vec<PagePair>,
    pub buf: Vec<u8>,
}

/// The pages among the first `n` of a window that map to RAM.
pub open spec fn window_pages(first_va: u64, probes: Seq<Option<u64>>, ram_len: nat, n: int) -> Seq<
    PagePair,
>
    decreases n,
{
    if n <= 0 {
        Seq::empty()
    } else {
        let before = window_pages(first_va, probes, ram_len, n - 1);
        match probes[n - 1] {
            Some(pa) => if page_in_ram(ram_len, page_base(pa)) {
                before.push(((first_va + (n - 1) * 0x1000) as u64, page_base(pa)))
            } else {
                before
            },
            None => before,
        }
    }
}

/// The code of the first `n` pages of a window, zeros where nothing is mapped.
pub open spec fn window_code(ram: Seq<u8>, probes: Seq<Option<u64>>, n: int) -> Seq<u8>
    decreases n,
{
    if n <= 0 {
        Seq::empty()
    } else {
        let hole = Seq::new(0x1000, |i: int| 0u8);
        window_code(ram, probes, n - 1) + match probes[n - 1] {
            Some(pa) => if page_in_ram(ram.len(), page_base(pa)) {
                let at = page_base(pa) - RAM_BASE;
                ram.subrange(at, at + 0x1000)
            } else {
                hole
            },
            None => hole,
        }
    }
}

/// Gather the window at `first_va`. `probes` is what the hart finds for its
/// pages.
pub fn gather_window(
    ram: &[u8],
    aspace: u64,
    map_gen: u32,
    boot_gen: u64,
    first_va: u64,
    probes: &[Option<u64>],
) -> (w: TraceWindow)
    requires
        first_va + probes@.len() * 0x1000 <= u64::MAX + 1,
    ensures
        w.aspace == aspace,
        w.map_gen == map_gen,
        w.boot_gen == boot_gen,
        w.first_va == first_va,
        w.pages@ == window_pages(first_va, probes@, ram@.len(), probes@.len() as int),
        w.buf@ == window_code(ram@, probes@, probes@.len() as int),
        pages_ok(w.pages@),
{
    let mut pages: Vec<PagePair> = Vec::new();
    let mut buf: Vec<u8> = Vec::new();
    assert(pages@ =~= Seq::empty());
    assert(buf@ =~= Seq::empty());
    let mut i: usize = 0;
    while i < probes.len()
        invariant
            i <= probes@.len(),
            first_va + probes@.len() * 0x1000 <= u64::MAX + 1,
            pages@ == window_pages(first_va, probes@, ram@.len(), i as int),
            buf@ == window_code(ram@, probes@, i as int),
            pages_ok(pages@),
        decreases probes@.len() - i,
    {
        let ghost before = pages@;
        let mut mapped: Option<u64> = None;
        match probes[i] {
            Some(pa) => {
                let page: u64 = page_of(pa);
                if checked_ram_range(ram.len(), RAM_BASE, page, 0x1000).is_some() {
                    mapped = Some(page);
                }
            },
            None => {},
        }
        match mapped {
            Some(page) => {
                let at: usize = (page - RAM_BASE) as usize;
                push_all(&mut buf, vstd::slice::slice_subrange(ram, at, at + 0x1000));
                pages.push((first_va + i as u64 * 0x1000, page));
                assert forall|k: int| 0 <= k < pages@.len() implies (#[trigger] pages@[k]).1
                    >= RAM_BASE && pages@[k].1 % 0x1000 == 0 by {
                    if k < before.len() {
                        assert(before[k].1 >= RAM_BASE);
                    }
                }
            },
            None => {
                push_zeros(&mut buf, 0x1000);
            },
        }
        i = i + 1;
    }
    TraceWindow { aspace, map_gen, boot_gen, first_va, pages, buf }
}

/// Where a window starts, and how many pages it has.
pub fn window_bounds(vpage: u64, single_page: bool) -> (w: (u64, u64))
    ensures
        w == if single_page {
            (vpage, 1u64)
        } else {
            ((vpage - vpage as int % (TRACE_WIN_PAGES * 0x1000)) as u64, TRACE_WIN_PAGES)
        },
{
    if single_page {
        (vpage, 1)
    } else {
        (vpage - vpage % (TRACE_WIN_PAGES * 0x1000), TRACE_WIN_PAGES)
    }
}

/// The windows used last: one was too few where hot code alternates across
/// several regions.
pub struct TraceWindows {
    pub windows: Vec<TraceWindow>,
}

/// Whether a window is the one asked for.
pub open spec fn is_window(w: TraceWindow, aspace: u64, map_gen: u32, boot_gen: u64, first_va: u64) -> bool {
    w.aspace == aspace && w.map_gen == map_gen && w.boot_gen == boot_gen && w.first_va == first_va
}

impl TraceWindows {
    pub fn new() -> (w: TraceWindows)
        ensures
            w.windows@ == Seq::<TraceWindow>::empty(),
    {
        TraceWindows { windows: Vec::new() }
    }

    /// Forget every window: guest code may have been written.
    pub fn clear(&mut self)
        ensures
            final(self).windows@ == Seq::<TraceWindow>::empty(),
    {
        self.windows.clear();
    }

    /// Where the window is, if it is kept. It becomes the one used last.
    pub fn find(&mut self, aspace: u64, map_gen: u32, boot_gen: u64, first_va: u64) -> (at: Option<
        usize,
    >)
        ensures
            match at {
                Some(at) => exists|i: int|
                    {
                        &&& 0 <= i < old(self).windows@.len()
                        &&& #[trigger] is_window(
                            old(self).windows@[i],
                            aspace,
                            map_gen,
                            boot_gen,
                            first_va,
                        )
                        &&& forall|k: int|
                            0 <= k < i ==> !is_window(
                                #[trigger] old(self).windows@[k],
                                aspace,
                                map_gen,
                                boot_gen,
                                first_va,
                            )
                        &&& final(self).windows@ == old(self).windows@.remove(i).push(
                            old(self).windows@[i],
                        )
                        &&& at == final(self).windows@.len() - 1
                        &&& at < final(self).windows@.len()
                    },
                None => {
                    &&& final(self).windows@ == old(self).windows@
                    &&& forall|k: int|
                        0 <= k < old(self).windows@.len() ==> !is_window(
                            #[trigger] old(self).windows@[k],
                            aspace,
                            map_gen,
                            boot_gen,
                            first_va,
                        )
                },
            },
    {
        let mut i: usize = 0;
        while i < self.windows.len()
            invariant
                i <= self.windows@.len(),
                self.windows@ == old(self).windows@,
                forall|k: int|
                    0 <= k < i ==> !is_window(
                        #[trigger] self.windows@[k],
                        aspace,
                        map_gen,
                        boot_gen,
                        first_va,
                    ),
            decreases self.windows@.len() - i,
        {
            let w = &self.windows[i];
            if w.aspace == aspace && w.map_gen == map_gen && w.boot_gen == boot_gen && w.first_va
                == first_va {
                assert(is_window(old(self).windows@[i as int], aspace, map_gen, boot_gen, first_va));
                let used: TraceWindow = self.windows.remove(i);
                self.windows.push(used);
                return Some(self.windows.len() - 1);
            }
            i = i + 1;
        }
        None
    }

    /// Keep a window in place of the one that was not used for longest, where
    /// there are too many. Returns where it is.
    pub fn insert(&mut self, w: TraceWindow) -> (at: usize)
        requires
            old(self).windows@.len() <= TRACE_WIN_CACHE,
        ensures
            final(self).windows@ == if old(self).windows@.len() >= TRACE_WIN_CACHE {
                old(self).windows@.remove(0).push(w)
            } else {
                old(self).windows@.push(w)
            },
            at == final(self).windows@.len() - 1,
            final(self).windows@.len() <= TRACE_WIN_CACHE,
    {
        if self.windows.len() >= TRACE_WIN_CACHE {
            self.windows.remove(0);
        }
        self.windows.push(w);
        self.windows.len() - 1
    }
}

} // verus!
