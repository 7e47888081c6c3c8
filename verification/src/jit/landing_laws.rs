//! What holds of compilations from the moment they are issued to the moment
//! they land: they run only what the guest's memory still holds.

use vstd::prelude::*;
use crate::bus::BusView;
use crate::dma::Memory;
use crate::jit::block::{
    page_base, JitBlock, PagePair, PendingBatch, PendingJit, PendingJitKind, PendingView,
};
use crate::jit::builds::{generations_of, is_region, marked_pages, pages_known, RegionPlan};
use crate::jit::code::{backs_in, slot_in};
use crate::jit::issue::{is_pending, Translated};
use crate::jit::landing::{
    completed, completion, fate_of, kind_ok, law_unwanted_code_is_not_installed,
    lemma_with_slots_cache, page_at, slot_run, Fate,
};
use crate::jit::policy::JitPolicy;
use crate::jit::queue::QueueView;
use crate::jit::state::JitView;
use crate::ram::{JitPages, RAM_BASE};

verus! {

/// Whether a page stands in a list of pages with this generation beside it.
pub open spec fn recorded(
    pages: Seq<PagePair>,
    generations: Seq<u64>,
    physical: u64,
    generation: u64,
) -> bool {
    exists|k: int|
        0 <= k < pages.len() && k < generations.len() && (#[trigger] pages[k]).1 == physical
            && generations[k] == generation
}

/// Whether a compilation was made from the physical page at `physical` when its
/// generation was `generation`.
pub open spec fn compiled_from(kind: PendingJitKind, physical: u64, generation: u64) -> bool {
    match kind {
        PendingJitKind::Block(b) => recorded(
            b.pages@,
            b.page_generations@,
            physical,
            generation,
        ),
        PendingJitKind::Batch(batch) => exists|m: int|
            0 <= m < batch.members@.len() && recorded(
                (#[trigger] batch.members@[m]).pages@,
                batch.members@[m].page_generations@,
                physical,
                generation,
            ),
        PendingJitKind::Region(r) => recorded(
            r.pages@,
            r.page_generations@,
            physical,
            generation,
        ),
    }
}

/// Code lands only while it matches the guest's memory: each page of RAM that it
/// was compiled from still backs compiled code, was not written since the last
/// drain, and has the generation that it had when the compilation was issued.
pub proof fn law_landed_code_matches_memory(
    v: JitView,
    ram: JitPages,
    boot_gen: u64,
    p: PendingJit,
    base: i32,
    slot_count: u32,
    physical: u64,
    generation: u64,
)
    requires
        fate_of(v, ram, boot_gen, p, base, slot_count) == Fate::Landed,
        compiled_from(p.kind, physical, generation),
        physical >= RAM_BASE,
    ensures
        ({
            let page = (physical - RAM_BASE) / 0x1000;
            &&& 0 <= page < ram.marked.len()
            &&& ram.marked[page]
            &&& !ram.dirty.contains(page as u64)
            &&& page < ram.generation.len()
            &&& ram.generation[page] == generation
        }),
{
}

/// Code that matches the guest's memory lands, if it is from this boot, no newer
/// compilation took its place and the host compiled what it was asked to.
pub proof fn law_unwritten_code_lands(
    v: JitView,
    ram: JitPages,
    boot_gen: u64,
    p: PendingJit,
    base: i32,
    slot_count: u32,
)
    requires
        kind_ok(p.kind),
        forall|physical: u64, generation: u64| #[trigger]
            compiled_from(p.kind, physical, generation) ==> {
                let page = (physical - RAM_BASE) / 0x1000;
                &&& page < ram.marked.len() && page < ram.generation.len()
                &&& ram.marked[page]
                &&& !ram.dirty.contains(page as u64)
                &&& ram.generation[page] == generation
            },
        p.boot_gen == boot_gen,
        v.still_owns(p.ticket, p.kind),
        base >= 0,
        slot_count == match p.kind {
            PendingJitKind::Batch(batch) if batch.page_module is None => batch.members@.len(),
            _ => 1,
        },
    ensures
        fate_of(v, ram, boot_gen, p, base, slot_count) == Fate::Landed,
{
    match p.kind {
        PendingJitKind::Block(b) => {
            assert forall|k: int|
                0 <= k < b.pages@.len() && k
                    < b.page_generations@.len() implies crate::jit::landing::page_fresh(
                ram,
                (#[trigger] b.pages@[k]).1,
                b.page_generations@[k],
            ) by {
                assert(recorded(b.pages@, b.page_generations@, b.pages@[k].1, b.page_generations@[k]));
                assert(compiled_from(p.kind, b.pages@[k].1, b.page_generations@[k]));
            }
        },
        PendingJitKind::Batch(batch) => {
            assert forall|m: int|
                0 <= m < batch.members@.len() implies crate::jit::landing::pages_fresh(
                ram,
                (#[trigger] batch.members@[m]).pages@,
                batch.members@[m].page_generations@,
            ) by {
                let b = batch.members@[m];
                assert forall|k: int|
                    0 <= k < b.pages@.len() && k
                        < b.page_generations@.len() implies crate::jit::landing::page_fresh(
                    ram,
                    (#[trigger] b.pages@[k]).1,
                    b.page_generations@[k],
                ) by {
                    assert(crate::jit::landing::pages_ok(b.pages@));
                    assert(recorded(
                        batch.members@[m].pages@,
                        batch.members@[m].page_generations@,
                        b.pages@[k].1,
                        b.page_generations@[k],
                    ));
                    assert(compiled_from(p.kind, b.pages@[k].1, b.page_generations@[k]));
                }
            }
        },
        PendingJitKind::Region(r) => {
            assert forall|k: int|
                0 <= k < r.pages@.len() && k
                    < r.page_generations@.len() implies crate::jit::landing::page_fresh(
                ram,
                (#[trigger] r.pages@[k]).1,
                r.page_generations@[k],
            ) by {
                assert(recorded(r.pages@, r.page_generations@, r.pages@[k].1, r.page_generations@[k]));
                assert(compiled_from(p.kind, r.pages@[k].1, r.page_generations@[k]));
            }
        },
    }
}

/// Code does not land after the guest stored to a page that it was compiled from.
pub proof fn law_store_keeps_code_from_landing(
    bus: BusView,
    addr: u64,
    val: u64,
    n: nat,
    v: JitView,
    boot_gen: u64,
    p: PendingJit,
    base: i32,
    slot_count: u32,
    physical: u64,
    generation: u64,
)
    requires
        compiled_from(p.kind, physical, generation),
        RAM_BASE <= physical <= addr < physical + 0x1000,
        physical % 0x1000 == 0,
        1 <= n <= 8,
        addr - RAM_BASE + n <= bus.mem.ram.len(),
    ensures
        fate_of(v, bus.stored(addr, val, n).mem.pages, boot_gen, p, base, slot_count)
            != Fate::Landed,
{
    let pages = bus.mem.pages;
    let after = bus.stored(addr, val, n).mem.pages;
    let page = (physical - RAM_BASE) / 0x1000;
    assert((addr - RAM_BASE) / 0x1000 == page);
    if fate_of(v, after, boot_gen, p, base, slot_count) == Fate::Landed {
        law_landed_code_matches_memory(
            v,
            after,
            boot_gen,
            p,
            base,
            slot_count,
            physical,
            generation,
        );
        if pages.page_of(addr) == Some(page) && pages.marked[page] && !pages.dirty.contains(
            page as u64,
        ) {
            assert(after.dirty[pages.dirty.len() as int] == page as u64);
        }
    }
}

/// Code does not land after a device wrote to a page that it was compiled from.
pub proof fn law_device_write_keeps_code_from_landing(
    mem: Memory,
    addr: int,
    bytes: Seq<u8>,
    v: JitView,
    boot_gen: u64,
    p: PendingJit,
    base: i32,
    slot_count: u32,
    physical: u64,
    generation: u64,
)
    requires
        mem.is_tracked(),
        compiled_from(p.kind, physical, generation),
        RAM_BASE <= physical,
        physical % 0x1000 == 0,
        bytes.len() > 0,
        RAM_BASE <= addr < physical + 0x1000,
        physical < addr + bytes.len(),
        addr - RAM_BASE + bytes.len() <= mem.ram.len(),
    ensures
        fate_of(
            v,
            mem.written(RAM_BASE, addr, bytes).pages,
            boot_gen,
            p,
            base,
            slot_count,
        ) != Fate::Landed,
{
    let after = mem.written(RAM_BASE, addr, bytes).pages;
    let page = (physical - RAM_BASE) / 0x1000;
    let first = (addr - RAM_BASE) / 0x1000;
    let last = (addr + bytes.len() - 1 - RAM_BASE) / 0x1000;
    assert(first <= page <= last);
    assert(mem.pages.page_of(addr as u64) == Some(first));
    assert(mem.pages.page_of((addr + bytes.len() - 1) as u64) == Some(last));
    crate::dma::lemma_noted_range(mem.pages, first, last + 1);
    if fate_of(v, after, boot_gen, p, base, slot_count) == Fate::Landed {
        law_landed_code_matches_memory(
            v,
            after,
            boot_gen,
            p,
            base,
            slot_count,
            physical,
            generation,
        );
    }
}

/// What can happen to the record of RAM pages.
pub enum PageEvent {
    /// A page was written.
    Written(int),
    /// The dirty pages were taken.
    Drained,
    /// A page was marked as one that backs compiled code.
    Marked(int),
    /// A page no longer backs compiled code.
    Unmarked(int),
}

/// The record after an event.
pub open spec fn page_event(pages: JitPages, event: PageEvent) -> JitPages {
    match event {
        PageEvent::Written(page) => if 0 <= page < pages.marked.len() {
            pages.noted(page)
        } else {
            pages
        },
        PageEvent::Drained => JitPages { dirty: Seq::empty(), ..pages },
        PageEvent::Marked(page) => if 0 <= page < pages.marked.len() {
            JitPages { marked: pages.marked.update(page, true), ..pages }
        } else {
            pages
        },
        PageEvent::Unmarked(page) => if 0 <= page < pages.marked.len() {
            JitPages { marked: pages.marked.update(page, false), ..pages }
        } else {
            pages
        },
    }
}

/// The record after some events.
pub open spec fn page_events(pages: JitPages, events: Seq<PageEvent>) -> JitPages
    decreases events.len(),
{
    if events.len() == 0 {
        pages
    } else {
        page_event(page_events(pages, events.drop_last()), events.last())
    }
}

proof fn lemma_generation_counts(pages: JitPages, events: Seq<PageEvent>, page: int)
    requires
        pages.marked.len() == pages.generation.len(),
        0 <= page < pages.marked.len(),
        pages.generation[page] + events.len() <= u64::MAX,
    ensures
        ({
            let later = page_events(pages, events);
            &&& later.marked.len() == pages.marked.len()
            &&& later.generation.len() == pages.generation.len()
            &&& pages.generation[page] <= later.generation[page] <= pages.generation[page]
                + events.len()
        }),
    decreases events.len(),
{
    if events.len() > 0 {
        lemma_generation_counts(pages, events.drop_last(), page);
    }
}

/// No store slips through between drains: once a page that a compilation was
/// made from is written, the compilation does not land, whatever is drained,
/// marked or unmarked afterwards, until a generation has counted through.
pub proof fn law_written_code_stays_stale(
    pages: JitPages,
    events: Seq<PageEvent>,
    v: JitView,
    boot_gen: u64,
    p: PendingJit,
    base: i32,
    slot_count: u32,
    physical: u64,
)
    requires
        pages.wf(),
        physical >= RAM_BASE,
        (physical - RAM_BASE) / 0x1000 < pages.marked.len(),
        pages.marked[(physical - RAM_BASE) / 0x1000],
        !pages.dirty.contains(((physical - RAM_BASE) / 0x1000) as u64),
        compiled_from(
            p.kind,
            physical,
            pages.generation[(physical - RAM_BASE) / 0x1000],
        ),
        pages.generation[(physical - RAM_BASE) / 0x1000] + events.len() + 1 <= u64::MAX,
    ensures
        ({
            let page = (physical - RAM_BASE) / 0x1000;
            let later = page_events(pages, seq![PageEvent::Written(page)] + events);
            fate_of(v, later, boot_gen, p, base, slot_count) != Fate::Landed
        }),
{
    let page = (physical - RAM_BASE) / 0x1000;
    let generation = pages.generation[page];
    let all = seq![PageEvent::Written(page)] + events;
    let written = page_event(pages, PageEvent::Written(page));
    lemma_events_from(pages, PageEvent::Written(page), events);
    lemma_generation_counts(written, events, page);
    let later = page_events(pages, all);
    if fate_of(v, later, boot_gen, p, base, slot_count) == Fate::Landed {
        law_landed_code_matches_memory(
            v,
            later,
            boot_gen,
            p,
            base,
            slot_count,
            physical,
            generation,
        );
    }
}

proof fn lemma_events_from(pages: JitPages, first: PageEvent, events: Seq<PageEvent>)
    ensures
        page_events(pages, seq![first] + events) == page_events(page_event(pages, first), events),
    decreases events.len(),
{
    let all = seq![first] + events;
    if events.len() == 0 {
        assert(all.drop_last() =~= Seq::<PageEvent>::empty());
        assert(all.last() == first);
        reveal_with_fuel(page_events, 2);
    } else {
        lemma_events_from(pages, first, events.drop_last());
        assert(all.drop_last() =~= seq![first] + events.drop_last());
        assert(all.last() == events.last());
    }
}

proof fn lemma_generations_at(ram: JitPages, pages: Seq<PagePair>, n: int)
    requires
        0 <= n <= pages.len(),
        pages_known(ram, pages),
    ensures
        generations_of(ram, pages, n).len() == n,
        forall|k: int|
            0 <= k < n ==> #[trigger] generations_of(ram, pages, n)[k] == ram.generation[(
            pages[k].1 - RAM_BASE) / 0x1000],
    decreases n,
{
    if n > 0 {
        lemma_generations_at(ram, pages, n - 1);
        assert(pages[n - 1].1 >= RAM_BASE);
    }
}

/// A block that is issued records for every page that it was compiled from the
/// generation that the page has.
pub proof fn law_issued_block_records_its_pages(
    p: PendingView,
    t: Translated,
    aspace: u64,
    pa: u64,
    pages: Seq<PagePair>,
    ram: JitPages,
    missed: bool,
)
    requires
        is_pending(p, t, aspace, pa, pages, ram, missed),
        pages_known(ram, pages),
    ensures
        p.pages == pages,
        p.page_generations.len() == pages.len(),
        forall|k: int|
            0 <= k < pages.len() ==> #[trigger] p.page_generations[k] == ram.generation[(pages[k].1
                - RAM_BASE) / 0x1000],
{
    lemma_generations_at(ram, pages, pages.len() as int);
}

/// A region that is issued records for every page that it was compiled from the
/// generation that the page has.
pub proof fn law_issued_region_records_its_pages(
    kind: PendingJitKind,
    plan: RegionPlan,
    ram: JitPages,
    entries: Seq<u64>,
)
    requires
        is_region(
            kind,
            plan,
            generations_of(ram, plan.pages@, plan.pages@.len() as int),
            entries,
        ),
        pages_known(ram, plan.pages@),
    ensures
        kind matches PendingJitKind::Region(r) && r.pages@ == plan.pages@
            && r.page_generations@.len() == plan.pages@.len() && forall|k: int|
            0 <= k < plan.pages@.len() ==> #[trigger] r.page_generations@[k] == ram.generation[(
            plan.pages@[k].1 - RAM_BASE) / 0x1000],
{
    lemma_generations_at(ram, plan.pages@, plan.pages@.len() as int);
}

proof fn lemma_marked_pages(ram: JitPages, pages: Seq<PagePair>, n: int)
    requires
        0 <= n <= pages.len(),
        ram.marked.len() == ram.generation.len(),
        pages_known(ram, pages),
    ensures
        ({
            let now = marked_pages(ram, pages, n);
            &&& now.generation == ram.generation
            &&& now.dirty == ram.dirty
            &&& now.marked.len() == ram.marked.len()
            &&& forall|i: int|
                0 <= i < ram.marked.len() ==> (#[trigger] now.marked[i] <==> ram.marked[i]
                    || exists|k: int|
                    0 <= k < n && ((#[trigger] pages[k]).1 - RAM_BASE) / 0x1000 == i)
        }),
    decreases n,
{
    if n > 0 {
        lemma_marked_pages(ram, pages, n - 1);
        let before = marked_pages(ram, pages, n - 1);
        let now = marked_pages(ram, pages, n);
        assert(pages[n - 1].1 >= RAM_BASE);
        let page = (pages[n - 1].1 - RAM_BASE) / 0x1000;
        assert(before.page_of(pages[n - 1].1) == Some(page));
        assert forall|i: int| 0 <= i < ram.marked.len() implies (#[trigger] now.marked[i]
            <==> ram.marked[i] || exists|k: int|
            0 <= k < n && ((#[trigger] pages[k]).1 - RAM_BASE) / 0x1000 == i) by {
            assert(before.marked[i] <==> ram.marked[i] || exists|k: int|
                0 <= k < n - 1 && ((#[trigger] pages[k]).1 - RAM_BASE) / 0x1000 == i);
            if i == page {
                assert((pages[n - 1].1 - RAM_BASE) / 0x1000 == i);
            }
        }
    }
}

/// From the moment that code is issued its pages are watched: exactly they join
/// those that back compiled code, and nothing else of the record changes.
pub proof fn law_issued_pages_are_watched(ram: JitPages, pages: Seq<PagePair>)
    requires
        ram.wf(),
        pages_known(ram, pages),
    ensures
        ({
            let now = marked_pages(ram, pages, pages.len() as int);
            &&& now.generation == ram.generation
            &&& now.dirty == ram.dirty
            &&& now.marked.len() == ram.marked.len()
            &&& forall|i: int|
                0 <= i < ram.marked.len() ==> (#[trigger] now.marked[i] <==> ram.marked[i]
                    || exists|k: int|
                    0 <= k < pages.len() && ((#[trigger] pages[k]).1 - RAM_BASE) / 0x1000 == i)
        }),
{
    lemma_marked_pages(ram, pages, pages.len() as int);
}

/// An entry that is there after a compilation came back, and was not before, was
/// compiled from pages that the guest has not written since.
pub proof fn law_new_code_was_not_written(
    was: JitView,
    was_queue: QueueView,
    now: JitView,
    now_queue: QueueView,
    ram: JitPages,
    policy: JitPolicy,
    ticket: u64,
    base: i32,
    slot_count: u32,
    fate: Option<Fate>,
    i: int,
    pc: u64,
    physical: u64,
    generation: u64,
)
    requires
        completion(
            was,
            was_queue,
            now,
            now_queue,
            ram,
            policy,
            ticket,
            base,
            slot_count,
            fate,
        ),
        was_queue.position(ticket, 0) == Some(i),
        now.code.cache.contains_key(pc),
        !(was.code.cache.contains_key(pc) && was.code.cache[pc] == now.code.cache[pc]),
        compiled_from(was_queue.pending[i].kind, physical, generation),
        physical >= RAM_BASE,
    ensures
        ({
            let page = (physical - RAM_BASE) / 0x1000;
            &&& 0 <= page < ram.marked.len()
            &&& ram.marked[page]
            &&& !ram.dirty.contains(page as u64)
            &&& page < ram.generation.len()
            &&& ram.generation[page] == generation
        }),
{
    let p = was_queue.pending[i];
    if fate->0 != Fate::Landed {
        law_unwanted_code_is_not_installed(
            was.arrived(p.kind),
            now,
            policy,
            p,
            base,
            slot_count,
            fate->0,
            pc,
        );
    }
    law_landed_code_matches_memory(
        was,
        ram,
        was_queue.boot_gen,
        p,
        base,
        slot_count,
        physical,
        generation,
    );
}


// ---- what landing installs -----------------------------------------------

/// Whether the entry at `pc` calls a slot.
pub open spec fn runs(v: JitView, pc: u64, idx: int) -> bool {
    v.code.cache.contains_key(pc) && (v.code.cache[pc] matches Some(entry) && entry.idx == idx)
}

/// A block that lands where no code is runs from then on: its pc calls the slot
/// that the host gave it, and every other entry is as it was. Code of several
/// pages is known to lie on all of them.
pub proof fn law_landed_block_runs(
    here: JitView,
    now: JitView,
    policy: JitPolicy,
    p: PendingJit,
    base: i32,
    slot_count: u32,
    x: u64,
)
    requires
        completed(here, now, policy, p, base, slot_count, Fate::Landed),
        p.kind is Block,
        base >= 0,
        !here.code.cache.contains_key(p.kind->Block_0.pc),
        x != p.kind->Block_0.pc,
    ensures
        ({
            let b = p.kind->Block_0;
            &&& runs(now, b.pc, base as int)
            &&& now.code.cache[b.pc]->0.n == b.block.n
            &&& now.code.cache[b.pc]->0.pa == b.block.pa
            &&& now.code.cache[b.pc]->0.fp == b.block.fp
            &&& (now.code.cache.contains_key(x) <==> here.code.cache.contains_key(x))
            &&& (here.code.cache.contains_key(x) ==> now.code.cache[x] == here.code.cache[x])
            &&& (b.pages@.len() > 1 ==> now.code.regions.contains_key(base)
                && now.code.regions[base] == b.pages@)
        }),
{
    let b = p.kind->Block_0;
    let run = slot_run(base, slot_count as int);
    lemma_with_slots_cache(here.code, p.ticket, run, run.len() as int);
    let module = here.with_module(p.ticket, base, slot_count as int);
    assert(module.code.cache == here.code.cache);
    assert(slot_in(module.code.cache, b.pc) is None);
    let with = module.with_block(policy, base, b@, false);
    assert(with.code.cache.contains_key(b.pc));
    assert(slot_in(with.code.cache, b.pc) == Some(base));
    assert(with.code.uses(base).contains(b.pc));
    assert(!(with.code.uses(base) =~= Set::empty()));
}

proof fn lemma_members(
    v: JitView,
    policy: JitPolicy,
    base: i32,
    batch: PendingBatch,
    n: int,
)
    requires
        0 <= n <= batch.members@.len(),
        base >= 0,
        base + batch.members@.len() <= i32::MAX,
        batch.page_module is None,
        forall|k: int|
            0 <= k < batch.members@.len() ==> !v.code.cache.contains_key(
                (#[trigger] batch.members@[k]).pc,
            ),
        forall|k: int, l: int|
            0 <= k < l < batch.members@.len() ==> (#[trigger] batch.members@[k]).pc != (
            #[trigger] batch.members@[l]).pc,
    ensures
        ({
            let now = v.with_members(policy, base, batch, n);
            &&& forall|k: int| 0 <= k < n ==> runs(now, (#[trigger] batch.members@[k]).pc, base + k)
            &&& forall|k: int|
                n <= k < batch.members@.len() ==> !now.code.cache.contains_key(
                    (#[trigger] batch.members@[k]).pc,
                )
            &&& forall|pc: u64|
                v.code.cache.contains_key(pc) ==> #[trigger] now.code.cache.contains_key(pc)
                    && now.code.cache[pc] == v.code.cache[pc]
        }),
    decreases n,
{
    if n > 0 {
        lemma_members(v, policy, base, batch, n - 1);
        let before = v.with_members(policy, base, batch, n - 1);
        let now = v.with_members(policy, base, batch, n);
        let m = batch.members@[n - 1];
        assert(!before.code.cache.contains_key(m.pc));
        assert(slot_in(before.code.cache, m.pc) is None);
        assert(before.block_claims(m@, policy.trace_keep_min, false));
        let entry = now.code.cache[m.pc];
        assert(now.code.cache == before.code.cache.insert(m.pc, entry));
        assert(runs(now, m.pc, base + n - 1));
        assert forall|k: int| 0 <= k < n implies runs(
            now,
            (#[trigger] batch.members@[k]).pc,
            base + k,
        ) by {
            if k < n - 1 {
                assert(batch.members@[k].pc != batch.members@[n - 1].pc);
                assert(runs(before, batch.members@[k].pc, base + k));
            }
        }
        assert forall|k: int| n <= k < batch.members@.len() implies !now.code.cache.contains_key(
            (#[trigger] batch.members@[k]).pc,
        ) by {
            assert(batch.members@[n - 1].pc != batch.members@[k].pc);
        }
    }
}

/// Each member of a batch that lands where no code is runs from then on: the
/// `k`-th calls the `k`-th of the slots that the host gave the batch.
pub proof fn law_landed_batch_runs(
    here: JitView,
    now: JitView,
    policy: JitPolicy,
    p: PendingJit,
    base: i32,
    slot_count: u32,
    k: int,
)
    requires
        completed(here, now, policy, p, base, slot_count, Fate::Landed),
        p.kind is Batch,
        p.kind->Batch_0.page_module is None,
        base >= 0,
        base + p.kind->Batch_0.members@.len() <= i32::MAX,
        forall|k: int|
            0 <= k < p.kind->Batch_0.members@.len() ==> !here.code.cache.contains_key(
                (#[trigger] p.kind->Batch_0.members@[k]).pc,
            ),
        forall|k: int, l: int|
            0 <= k < l < p.kind->Batch_0.members@.len() ==> (
            #[trigger] p.kind->Batch_0.members@[k]).pc != (
            #[trigger] p.kind->Batch_0.members@[l]).pc,
        0 <= k < p.kind->Batch_0.members@.len(),
    ensures
        runs(now, p.kind->Batch_0.members@[k].pc, base + k),
{
    let batch = p.kind->Batch_0;
    let run = slot_run(base, slot_count as int);
    lemma_with_slots_cache(here.code, p.ticket, run, run.len() as int);
    let module = here.with_module(p.ticket, base, slot_count as int);
    assert(module.code.cache == here.code.cache);
    assert(!module.code.module_pending(p.ticket, batch.page_module));
    lemma_members(module, policy, base, batch, batch.members@.len() as int);
    assert(runs(
        module.with_members(policy, base, batch, batch.members@.len() as int),
        batch.members@[k].pc,
        base + k,
    ));
}

proof fn lemma_region_entries(
    v: JitView,
    idx: i32,
    aspace: u64,
    pages: Seq<PagePair>,
    pcs: Seq<u64>,
    keep: u32,
    n: int,
    k: int,
)
    requires
        0 <= k < pcs.len(),
        0 <= n <= pcs.len(),
        !v.code.cache.contains_key(pcs[k]),
        page_at(pages, page_base(pcs[k]), 0) is Some,
    ensures
        ({
            let now = v.with_region_entries(idx, aspace, pages, pcs, keep, n);
            let pc = pcs[k];
            &&& now.code.cache.contains_key(pc) ==> runs(now, pc, idx as int)
                && now.code.cache[pc]->0.n == 0
            &&& k < n ==> now.code.cache.contains_key(pc)
        }),
    decreases n,
{
    if n > 0 {
        lemma_region_entries(v, idx, aspace, pages, pcs, keep, n - 1, k);
        let before = v.with_region_entries(idx, aspace, pages, pcs, keep, n - 1);
        if !before.code.cache.contains_key(pcs[k]) {
            assert(slot_in(before.code.cache, pcs[k]) is None);
        }
    }
}

proof fn lemma_page_found(pages: Seq<PagePair>, va: u64, from: int, at: int)
    requires
        0 <= from <= at < pages.len(),
        pages[at].0 == va,
    ensures
        page_at(pages, va, from) is Some,
    decreases at - from,
{
    if from < at && pages[from].0 != va {
        lemma_page_found(pages, va, from + 1, at);
    }
}

/// Each entry of a region that lands where no code is runs from then on, if it
/// lies on a page of the region: it calls the slot that the host gave the region.
pub proof fn law_landed_region_runs(
    here: JitView,
    now: JitView,
    policy: JitPolicy,
    p: PendingJit,
    base: i32,
    slot_count: u32,
    k: int,
    at: int,
)
    requires
        completed(here, now, policy, p, base, slot_count, Fate::Landed),
        p.kind is Region,
        0 <= k < p.kind->Region_0.entries@.len(),
        !here.code.cache.contains_key(p.kind->Region_0.entries@[k]),
        0 <= at < p.kind->Region_0.pages@.len(),
        p.kind->Region_0.pages@[at].0 == p.kind->Region_0.entries@[k]
            - p.kind->Region_0.entries@[k] % 0x1000,
    ensures
        runs(now, p.kind->Region_0.entries@[k], base as int),
{
    let region = p.kind->Region_0;
    let run = slot_run(base, slot_count as int);
    lemma_with_slots_cache(here.code, p.ticket, run, run.len() as int);
    let module = here.with_module(p.ticket, base, slot_count as int);
    assert(module.code.cache == here.code.cache);
    lemma_page_found(region.pages@, page_base(region.entries@[k]), 0, at);
    let started = module.region_claimed(p.ticket, region).region_started(base, region);
    lemma_region_entries(
        started,
        base,
        region.aspace,
        region.pages@,
        region.entries@,
        policy.trace_keep_min,
        region.entries@.len() as int,
        k,
    );
}

/// Code is known to lie on every page that it was compiled from: one entry of
/// several pages on all of them, and any other on the page of its address.
pub proof fn law_code_lies_on_its_pages(
    cache: Map<u64, Option<JitBlock>>,
    regions: Map<i32, Seq<PagePair>>,
    pc: u64,
    k: int,
    page: u64,
)
    requires
        cache.contains_key(pc),
        cache[pc] is Some,
    ensures
        ({
            let block = cache[pc]->0;
            &&& (regions.contains_key(block.idx) && 0 <= k < regions[block.idx].len()
                && regions[block.idx][k].1 >= RAM_BASE ==> backs_in(
                cache,
                regions,
                ((regions[block.idx][k].1 - RAM_BASE) / 0x1000) as u64,
                pc,
            ))
            &&& (!regions.contains_key(block.idx) && block.pa >= RAM_BASE ==> (backs_in(
                cache,
                regions,
                page,
                pc,
            ) <==> page == (block.pa - RAM_BASE) / 0x1000))
        }),
{
    let block = cache[pc]->0;
    if regions.contains_key(block.idx) && 0 <= k < regions[block.idx].len() {
        let pages = regions[block.idx].map_values(
            |page: PagePair| crate::jit::code::ram_page(page.1),
        );
        assert(pages[k] == crate::jit::code::ram_page(regions[block.idx][k].1));
        assert(pages.contains(crate::jit::code::ram_page(regions[block.idx][k].1)));
    } else if !regions.contains_key(block.idx) && block.pa >= RAM_BASE {
        let only = seq![crate::jit::code::ram_page(block.pa)];
        assert(only[0] == crate::jit::code::ram_page(block.pa));
    }
}

} // verus!
