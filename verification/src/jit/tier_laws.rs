//! What holds of how code moves up the tiers: what is counted as hot, what a
//! region is made of, when it grows, and when it is given up.

use vstd::prelude::*;

use crate::jit::block::{page_base, JitBlock, PagePair, PendingJitKind, PendingView};
use crate::jit::builds::{
    build_pages, code_of, cooldown_of, doubled, hottest_first, joined_above, joined_below, near_end,
    near_start, page_above, page_below, pages_in_order, probe_of, probed, wants_superblock,
    with_page, with_target,
};
use crate::jit::code::{backs_in, pages_in, CodeView};
use crate::jit::dirty::{block_from, page_drained, unmarked};
use crate::jit::dispatch::{BailsView, DispatchLine, DispatchView, HeatView, SuccessorsView};
use crate::jit::index::PageKey;
use crate::jit::issue::{compilable, window_code};
use crate::jit::landing::page_at;
use crate::jit::pages::{list_at, BuildRecord, DiscoveryView};
use crate::jit::policy::JitPolicy;
use crate::jit::queue::QueueView;
use crate::jit::recency::{colder, JitOwnerId};
use crate::jit::regions::{spent, target_at, targets_after};
use crate::jit::state::JitView;
use crate::ram::JitPages;

verus! {

// ---- heat ----------------------------------------------------------------

/// Heat is counted: one more entry is one more, up to the greatest count, code
/// that lost its heat has none, and what shares no line is not touched.
pub proof fn law_heat_counts_entries(h: HeatView, pc: u64, other: u64)
    requires
        h.counts.len() == 262_144,
        h.tags.len() == 262_144,
        pc / 2 % 262_144 != other / 2 % 262_144,
    ensures
        h.count(pc) < 65535 ==> h.entered(pc).count(pc) == h.count(pc) + 1,
        h.count(pc) == 65535 ==> h.entered(pc).count(pc) == 65535,
        h.cooled(pc).count(pc) == 0,
        h.cooled(pc).dispatched(pc) == 0,
        h.entered(pc).count(other) == h.count(other),
        h.cooled(pc).count(other) == h.count(other),
        HeatView::fresh().count(pc) == 0,
{
}

/// Two pcs of one line are told apart, unless their addresses agree in the 32
/// bits above the lowest: what one of them did is not the other's.
pub proof fn law_lines_tell_pcs_apart(h: HeatView, pc: u64, other: u64)
    requires
        h.counts.len() == 262_144,
        h.tags.len() == 262_144,
        pc / 2 % 262_144 == other / 2 % 262_144,
        pc / 2 % 0x1_0000_0000 != other / 2 % 0x1_0000_0000,
    ensures
        h.entered(pc).count(other) == 0,
{
}

/// A pc that goes to the same place often enough in a row is extended, at the
/// trigger and not before; going elsewhere starts the count again.
pub proof fn law_steady_successor_is_extended(
    s: SuccessorsView,
    pc: u64,
    next: u64,
    elsewhere: u64,
    trigger: u32,
)
    requires
        s.rows.len() == 262_144,
        next != elsewhere,
        trigger > 1,
        s.rows[pc as int / 2 % 262_144].pc == pc,
        s.rows[pc as int / 2 % 262_144].next == next,
        s.rows[pc as int / 2 % 262_144].count < u32::MAX,
    ensures
        ({
            let times = s.rows[pc as int / 2 % 262_144].count;
            let again = s.observed(pc, next, trigger);
            let other = s.observed(pc, elsewhere, trigger);
            &&& s.proves(pc, next, trigger) <==> times + 1 == trigger
            &&& (times + 1 == trigger ==> again.extended == s.extended.insert(pc))
            &&& (times + 1 != trigger ==> again.extended == s.extended)
            &&& (times + 1 != trigger ==> again.rows[pc as int / 2 % 262_144].count == times + 1)
            &&& again.next(pc, 1) == Some(next)
            &&& other.rows[pc as int / 2 % 262_144].count == 1
            &&& other.next(pc, 1) == Some(elsewhere)
            &&& other.next(pc, 2) is None
            &&& other.extended == s.extended
        }),
{
}

/// Refill is compiled in once 65,536 translations were missed, and an entry is
/// recompiled for it when it has missed eight of them.
pub proof fn law_misses_ask_for_refill(b: BailsView, pc: u64)
    requires
        b.rows.len() == 262_144,
        b.rows[pc as int / 2 % 262_144].0 == pc,
        b.rows[pc as int / 2 % 262_144].1 < 254,
        b.total < u64::MAX,
    ensures
        b.bailed(pc).total == b.total + 1,
        b.recompiles(pc) <==> (b.auto_enabled || b.total + 1 >= 65_536) && b.rows[pc as int / 2
            % 262_144].1 + 1 >= 8,
        !b.recompiles(pc) ==> b.bailed(pc).rows[pc as int / 2 % 262_144] == (
            pc,
            (b.rows[pc as int / 2 % 262_144].1 + 1) as u8,
        ),
{
}

/// Code that the interpreter reaches is compiled once it was reached as often as
/// the policy says: until then it gets hotter, and then the interpreter returns.
/// Compiled code is returned to at once, and code on its way into a trace is left
/// alone.
pub proof fn law_reached_code_gets_hot(
    v: JitView,
    now: JitView,
    policy: JitPolicy,
    tier_up: bool,
    aspace: u64,
    pc: u64,
    stop: bool,
)
    requires
        v.heat.counts.len() == 262_144,
        v.heat.tags.len() == 262_144,
        v.heat.count(pc) < 65535,
        v.entry_observed(now, policy, tier_up, aspace, pc, stop),
    ensures
        ({
            let block = v.code.cache[pc];
            let compiled = v.code.cache.contains_key(pc) && (block matches Some(b) && b.idx >= 0);
            let waits = !tier_up || v.coverage.contains_key((aspace, pc));
            let times = v.heat.count(pc) + 1;
            &&& compiled ==> stop && now == v
            &&& !compiled && waits ==> !stop && now == v
            &&& !compiled && !waits ==> now.heat.count(pc) == times && stop == (times
                >= policy.threshold)
            &&& !compiled && !waits && stop ==> now.heat.dispatched(pc) == policy.threshold
            &&& now.code == v.code && now.lines == v.lines
        }),
{
}

/// Code is not compiled that is compiled, staged or being compiled already; other
/// code is, while the host takes more: one compilation in a run, and four at once.
pub proof fn law_code_is_compiled_once(v: JitView, queue: QueueView, aspace: u64, pc: u64, k: int)
    ensures
        v.code.cache.contains_key(pc) ==> !compilable(v, queue, aspace, pc),
        v.coverage.contains_key((aspace, pc)) ==> !compilable(v, queue, aspace, pc),
        0 <= k < v.stage.len() && v.stage[k].pending.aspace == aspace && v.stage[k].pending.pc == pc
            ==> !compilable(v, queue, aspace, pc),
        0 <= k < queue.pending.len() && (queue.pending[k].kind matches PendingJitKind::Block(b)
            && b.aspace == aspace && b.pc == pc) ==> !compilable(v, queue, aspace, pc),
        queue.pending.len() >= 4 || queue.issues_this_run >= 1 || queue.capacity_blocked
            ==> !compilable(v, queue, aspace, pc),
        !v.code.cache.contains_key(pc) && !v.coverage.contains_key((aspace, pc)) && v.stage.len()
            == 0 && queue.pending.len() == 0 && queue.issues_this_run == 0
            && !queue.capacity_blocked ==> compilable(v, queue, aspace, pc),
{
}

/// A compilation that is handed over waits under a ticket of its own, until it is
/// taken.
pub proof fn law_submitted_work_waits(queue: QueueView, kind: PendingJitKind)
    requires
        queue.next_ticket < u64::MAX,
        queue.issues_this_run < u32::MAX,
    ensures
        ({
            let after = queue.submitted(kind);
            let last = queue.pending.len() as int;
            &&& after.pending.len() == last + 1
            &&& after.pending[last].kind == kind
            &&& after.pending[last].ticket == queue.next_ticket
            &&& after.pending[last].boot_gen == queue.boot_gen
            &&& after.next_ticket == queue.next_ticket + 1
            &&& after.issues_this_run == queue.issues_this_run + 1
            &&& forall|i: int| 0 <= i < last ==> #[trigger] after.pending[i] == queue.pending[i]
        }),
{
}

/// The module of a page is compiled from the page as it stands: one that was made
/// or tried from other contents is made again, and one of these contents is not.
pub proof fn law_changed_page_is_compiled_again(
    v: JitView,
    policy: JitPolicy,
    ram: JitPages,
    key: PageKey,
    pa_page: u64,
)
    requires
        pa_page >= 0x8000_0000,
        v.code.modules.contains_key(key),
        !(v.code.modules[key] is Pending),
    ensures
        ({
            let source = v.module_source(policy, ram, pa_page);
            let page = (pa_page - 0x8000_0000) / 0x1000;
            let decision = v.code.module_decision(key, source);
            let was = v.code.modules[key].source();
            &&& source.physical_page == page
            &&& source.generation == ram.generation[page]
            &&& was.generation != ram.generation[page] ==> decision is Build
            &&& was.physical_page != page ==> decision is Build
            &&& was == source ==> decision is Individual
        }),
{
}

/// A module that is used is the most recently used one: it is evicted after those
/// whose use was earlier.
pub proof fn law_used_module_is_recent(
    code: CodeView,
    pc: u64,
    owner: JitOwnerId,
    other: JitOwnerId,
)
    requires
        code.owner_at(pc) == Some(owner),
        code.stamp < u64::MAX,
        other != owner,
        code.recency.contains_key(other),
        code.recency[other] <= code.stamp,
        code.recency.contains_key(owner) ==> code.recency[owner] <= code.stamp,
    ensures
        ({
            let after = code.used(pc);
            &&& after.recency[owner] == code.stamp + 1
            &&& after.recency[other] == code.recency[other]
            &&& colder((after.recency[other], other), (after.recency[owner], owner))
            &&& !colder((after.recency[owner], owner), (after.recency[other], other))
        }),
{
}

// ---- dispatch lines ------------------------------------------------------

/// A line that was written for a pc is found for it, and no other line changes.
pub proof fn law_line_is_found(d: DispatchView, pc: u64, idx: i32, gen: u32, i: int)
    requires
        d.lines.len() == 262_144,
        0 <= i < 262_144,
    ensures
        d.with_line(pc, idx, gen).lines[pc as int / 2 % 262_144] == (DispatchLine { pc, idx, gen }),
        i != pc as int / 2 % 262_144 ==> d.with_line(pc, idx, gen).lines[i] == d.lines[i],
        pc != u64::MAX ==> d.without_line(pc).lines[pc as int / 2 % 262_144].pc != pc,
        d.lines[i].pc != pc ==> d.without_line(pc).lines[i] == d.lines[i],
{
}

proof fn lemma_no_lines(d: DispatchView, pcs: Seq<u64>, n: int, pc: u64)
    requires
        d.lines.len() == 262_144,
        0 <= n <= pcs.len(),
        pc != u64::MAX,
    ensures
        d.without_lines(pcs, n).lines.len() == 262_144,
        (exists|k: int| 0 <= k < n && pcs[k] == pc) ==> d.without_lines(
            pcs,
            n,
        ).lines[pc as int / 2 % 262_144].pc != pc,
        d.lines[pc as int / 2 % 262_144].pc != pc ==> d.without_lines(
            pcs,
            n,
        ).lines[pc as int / 2 % 262_144].pc != pc,
    decreases n,
{
    if n > 0 {
        lemma_no_lines(d, pcs, n - 1, pc);
        let before = d.without_lines(pcs, n - 1);
        let last = pcs[n - 1];
        law_line_is_found(before, last, 0, 0, pc as int / 2 % 262_144);
        if exists|k: int| 0 <= k < n && pcs[k] == pc {
            let k = choose|k: int| 0 <= k < n && pcs[k] == pc;
            if k < n - 1 {
                assert(pcs[k] == pc);
            }
        }
    }
}

/// Code on a RAM page that was written is not dispatched to any more: its entry
/// is gone, and so is the line that led to it.
pub proof fn law_written_code_is_not_dispatched(
    v: JitView,
    now: JitView,
    page: u64,
    pcs: Seq<u64>,
    exact: Map<PageKey, ()>,
    exact_now: Map<PageKey, ()>,
    broad: Set<u64>,
    broad_now: Set<u64>,
    pc: u64,
    block: JitBlock,
)
    requires
        page_drained(v, now, page, pcs, exact, exact_now, broad, broad_now),
        v.lines.lines.len() == 262_144,
        pc != u64::MAX,
        v.code.cache.contains_key(pc),
        v.code.cache[pc] == Some(block),
        block.pa >= 0x8000_0000,
        v.code.regions.contains_key(block.idx) ==> exists|k: int|
            0 <= k < v.code.regions[block.idx].len() && (#[trigger] v.code.regions[block.idx][k]).1
                >= 0x8000_0000 && (v.code.regions[block.idx][k].1 - 0x8000_0000) / 0x1000 == page,
        !v.code.regions.contains_key(block.idx) ==> (block.pa - 0x8000_0000) / 0x1000 == page,
    ensures
        pcs.contains(pc),
        now.lines.lines[pc as int / 2 % 262_144].pc != pc,
{
    if v.code.regions.contains_key(block.idx) {
        let k = choose|k: int|
            0 <= k < v.code.regions[block.idx].len() && (#[trigger] v.code.regions[block.idx][k]).1
                >= 0x8000_0000 && (v.code.regions[block.idx][k].1 - 0x8000_0000) / 0x1000 == page;
        let pages = pages_in(v.code.regions, block);
        assert(pages[k] == page);
        assert(pages.contains(page));
    } else {
        let pages = pages_in(v.code.regions, block);
        assert(pages[0] == page);
        assert(pages.contains(page));
    }
    assert(backs_in(v.code.cache, v.code.regions, page, pc));
    assert(pcs.contains(pc));
    lemma_no_lines(v.lines, pcs, pcs.len() as int, pc);
}

/// A block on its way through the compiler comes from every RAM page that holds a
/// part of its code.
pub proof fn law_block_comes_from_its_pages(block: PendingView, k: int)
    requires
        0 <= k < block.pages.len(),
        block.pages[k].1 >= 0x8000_0000,
    ensures
        block_from(block, ((block.pages[k].1 - 0x8000_0000) / 0x1000) as u64),
{
}

/// Unmarking takes the mark off the pages that it is told of, and off no other.
pub proof fn law_unmarked_pages_are_those_told(marked: Seq<bool>, pages: Seq<u64>, n: int, p: int)
    requires
        0 <= n <= pages.len(),
        0 <= p < marked.len(),
    ensures
        unmarked(marked, pages, n).len() == marked.len(),
        unmarked(marked, pages, n)[p] == (marked[p] && !exists|k: int|
            0 <= k < n && #[trigger] pages[k] == p),
    decreases n,
{
    if n > 0 {
        law_unmarked_pages_are_those_told(marked, pages, n - 1, p);
        if pages[n - 1] != p && exists|k: int| 0 <= k < n && #[trigger] pages[k] == p {
            let k = choose|k: int| 0 <= k < n && #[trigger] pages[k] == p;
            assert(0 <= k < n - 1 && pages[k] == p);
        }
    }
}

// ---- regions -------------------------------------------------------------

/// A region that execution leaves after fewer than 24 instructions on the average
/// of 64 stays is given up, where the policy says so; one that holds execution is
/// not, and neither is one that was not measured as often.
pub proof fn law_region_that_does_not_hold_is_given_up(
    v: JitView,
    policy: JitPolicy,
    idx: i32,
    target: u64,
    stay: u64,
)
    requires
        v.code.exits.contains_key(idx),
        v.code.exits[idx].samples < u32::MAX,
        v.code.exits[idx].stay_sum + stay <= u64::MAX,
    ensures
        ({
            let r = v.code.exits[idx];
            let samples = if stay > 0 {
                r.samples + 1
            } else {
                r.samples as int
            };
            v.exit_outcome(policy, idx, target, stay) is Demoted <==> policy.demote && samples == 64
                && (r.stay_sum + stay) / 64 < 24
        }),
{
}

/// An exit to a page of the region is none; the sixteenth exit elsewhere asks for
/// the region to grow, unless it has asked already or sixty-four others have.
pub proof fn law_exits_ask_for_growth(
    v: JitView,
    policy: JitPolicy,
    idx: i32,
    target: u64,
    stay: u64,
)
    requires
        v.code.exits.contains_key(idx),
        !policy.demote,
        v.code.exits[idx].total < u32::MAX,
    ensures
        ({
            let r = v.code.exits[idx];
            let page = target - target % 0x1000;
            let inside = exists|k: int| 0 <= k < r.pages.len() && (#[trigger] r.pages[k]).0 == page;
            let outcome = v.exit_outcome(policy, idx, target, stay);
            &&& (inside ==> outcome is InRegion)
            &&& (!inside && r.total + 1 == 16 && v.code.ext_queue.len() < 64
                && !v.code.ext_queue.contains(idx) ==> outcome is Queued && v.after_exit(
                policy,
                idx,
                target,
                stay,
            ).code.ext_queue == v.code.ext_queue.push(idx))
            &&& (!inside && r.total + 1 != 16 ==> outcome is Left)
            &&& (!inside ==> v.after_exit(policy, idx, target, stay).code.exits[idx].total
                == r.total + 1)
        }),
{
    let r = v.code.exits[idx];
    lemma_page_at(r.pages, page_base(target), 0);
}

proof fn lemma_page_at(pages: Seq<PagePair>, page: u64, i: int)
    requires
        0 <= i,
    ensures
        page_at(pages, page, i) is Some <==> exists|k: int|
            i <= k < pages.len() && (#[trigger] pages[k]).0 == page,
    decreases pages.len() - i,
{
    if i < pages.len() {
        lemma_page_at(pages, page, i + 1);
        if pages[i].0 != page && exists|k: int| i <= k < pages.len() && (#[trigger] pages[k]).0
            == page {
            let k = choose|k: int| i <= k < pages.len() && (#[trigger] pages[k]).0 == page;
            assert(i + 1 <= k < pages.len() && pages[k].0 == page);
        }
    }
}

/// An exit is counted for the page that it leads to.
pub proof fn law_exit_is_counted_for_its_target(targets: Seq<(u64, u32)>, page: u64, k: int)
    requires
        0 <= k < targets.len(),
        targets[k].0 == page,
        targets[k].1 < u32::MAX,
        forall|i: int, j: int| 0 <= i < j < targets.len() ==> targets[i].0 != targets[j].0,
    ensures
        targets_after(targets, page) == targets.update(k, (page, (targets[k].1 + 1) as u32)),
{
    lemma_target_at(targets, page, 0, k);
}

proof fn lemma_target_at(targets: Seq<(u64, u32)>, page: u64, i: int, k: int)
    requires
        0 <= i <= k < targets.len(),
        targets[k].0 == page,
        forall|a: int, b: int| 0 <= a < b < targets.len() ==> targets[a].0 != targets[b].0,
    ensures
        target_at(targets, page, i) == Some(k),
    decreases k - i,
{
    if i < k {
        lemma_target_at(targets, page, i + 1, k);
    }
}

/// The build allowance of every page of a region that is given up is spent: the
/// page does not come back as a region.
pub proof fn law_given_up_pages_are_spent(
    v: DiscoveryView,
    aspace: u64,
    pages: Seq<PagePair>,
    n: int,
    k: int,
)
    requires
        0 <= k < n <= pages.len(),
    ensures
        spent(v, aspace, pages, n).build_of((aspace, pages[k].0)).compiles == 16,
        spent(v, aspace, pages, n).missed_of((aspace, pages[k].0)) == 0,
        spent(v, aspace, pages, n).entries == v.entries,
    decreases n,
{
    if n > 1 {
        if k < n - 1 {
            law_given_up_pages_are_spent(v, aspace, pages, n - 1, k);
        } else {
            law_given_up_pages_are_spent(v, aspace, pages, n - 1, 0);
        }
    } else {
        assert(spent(v, aspace, pages, 0) == v);
    }
}

// ---- builds --------------------------------------------------------------

/// A page is built as a region once six entries of it are hot. It is built again
/// when the wait is over, eight entries and a quarter of those that it covers had
/// to be compiled by themselves, and it would cover more or was not built sixteen
/// times.
pub proof fn law_page_is_built_when_it_is_hot(
    v: DiscoveryView,
    key: PageKey,
    n: int,
    insn_count: u64,
)
    requires
        v.build_of(key).entries <= 0xffff_ffff,
    ensures
        !v.claims.superblocked.contains(key) ==> (wants_superblock(v, key, n, insn_count) <==> n
            >= 6),
        v.claims.superblocked.contains(key) ==> (wants_superblock(v, key, n, insn_count)
            <==> v.build_of(key).cool(insn_count) && v.missed_of(key) >= 8 && v.missed_of(key)
            >= v.build_of(key).entries / 4 && (n > v.build_of(key).entries || v.build_of(
            key,
        ).compiles < 16)),
{
}

/// The wait after a build is eight million instructions and doubles with each,
/// up to the sixth.
pub proof fn law_wait_doubles(r: BuildRecord, insn_count: u64)
    requires
        r.when + 512_000_000 <= u64::MAX,
    ensures
        r.compiles == 0 ==> (r.cool(insn_count) <==> insn_count >= r.when + 8_000_000),
        r.compiles == 1 ==> (r.cool(insn_count) <==> insn_count >= r.when + 16_000_000),
        r.compiles == 2 ==> (r.cool(insn_count) <==> insn_count >= r.when + 32_000_000),
        r.compiles == 3 ==> (r.cool(insn_count) <==> insn_count >= r.when + 64_000_000),
        r.compiles == 4 ==> (r.cool(insn_count) <==> insn_count >= r.when + 128_000_000),
        r.compiles == 5 ==> (r.cool(insn_count) <==> insn_count >= r.when + 256_000_000),
        r.compiles >= 6 ==> (r.cool(insn_count) <==> insn_count >= r.when + 512_000_000),
{
    reveal_with_fuel(doubled, 7);
    assert(0 <= cooldown_of(r.compiles) <= 512_000_000);
}

/// Whether pages, but for those of `own`, are what the hart found when it looked
/// them up, and whole pages of RAM.
pub open spec fn are_found(
    pages: Seq<PagePair>,
    own: Seq<PagePair>,
    probes: Seq<(u64, Option<u64>)>,
    ram_len: nat,
) -> bool {
    &&& pages.len() >= own.len()
    &&& pages.subrange(0, own.len() as int) == own
    &&& forall|k: int|
        own.len() <= k < pages.len() ==> {
            let page = #[trigger] pages[k];
            &&& 0x8000_0000 <= page.1
            &&& page.1 - 0x8000_0000 + 0x1000 <= ram_len
            &&& page.1 % 0x1000 == 0
            &&& exists|i: int|
                0 <= i < probes.len() && (#[trigger] probes[i]).0 == page.0 && (probes[i].1 matches Some(
                    pa,
                ) && page.1 == pa - pa % 0x1000)
        }
    &&& forall|j: int, k: int|
        0 <= j < k < pages.len() && own.len() <= k ==> pages[j].0 != pages[k].0
}

proof fn lemma_probe(probes: Seq<(u64, Option<u64>)>, va: u64, i: int)
    requires
        0 <= i,
        probe_of(probes, va, i) is Some,
    ensures
        exists|k: int|
            i <= k < probes.len() && (#[trigger] probes[k]).0 == va && probes[k].1 == probe_of(
                probes,
                va,
                i,
            ),
    decreases probes.len() - i,
{
    if i < probes.len() {
        if probes[i].0 == va {
            assert(probes[i].1 == probe_of(probes, va, i));
        } else {
            lemma_probe(probes, va, i + 1);
        }
    }
}

proof fn lemma_probed(
    pages: Seq<PagePair>,
    own: Seq<PagePair>,
    probes: Seq<(u64, Option<u64>)>,
    ram_len: nat,
    va: u64,
)
    requires
        are_found(pages, own, probes, ram_len),
        pages.len() <= 3,
    ensures
        are_found(probed(pages, probes, ram_len, va), own, probes, ram_len),
        probed(pages, probes, ram_len, va).len() <= 3,
{
    let more = probed(pages, probes, ram_len, va);
    if more != pages {
        lemma_probe(probes, va, 0);
        lemma_page_at(pages, va, 0);
        assert(more.subrange(0, own.len() as int) =~= own);
        assert(forall|j: int| 0 <= j < pages.len() ==> more[j] == pages[j]);
    }
}

proof fn lemma_joined_above(
    v: DiscoveryView,
    aspace: u64,
    pages: Seq<PagePair>,
    own: Seq<PagePair>,
    probes: Seq<(u64, Option<u64>)>,
    ram_len: nat,
    va: u64,
)
    requires
        are_found(pages, own, probes, ram_len),
        pages.len() <= 3,
    ensures
        are_found(joined_above(v, aspace, pages, probes, ram_len, va), own, probes, ram_len),
        joined_above(v, aspace, pages, probes, ram_len, va).len() <= 3,
    decreases 3 - pages.len(),
{
    lemma_probed(pages, own, probes, ram_len, va);
    let more = probed(pages, probes, ram_len, va);
    if more.len() > pages.len() {
        lemma_joined_above(v, aspace, more, own, probes, ram_len, page_above(va));
    }
}

proof fn lemma_joined_below(
    v: DiscoveryView,
    aspace: u64,
    pages: Seq<PagePair>,
    own: Seq<PagePair>,
    probes: Seq<(u64, Option<u64>)>,
    ram_len: nat,
    vpage: u64,
    va: u64,
)
    requires
        are_found(pages, own, probes, ram_len),
        pages.len() <= 3,
    ensures
        are_found(joined_below(v, aspace, pages, probes, ram_len, vpage, va), own, probes, ram_len),
        joined_below(v, aspace, pages, probes, ram_len, vpage, va).len() <= 3,
    decreases 3 - pages.len(),
{
    lemma_probed(pages, own, probes, ram_len, va);
    let more = probed(pages, probes, ram_len, va);
    if more.len() > pages.len() {
        lemma_joined_below(v, aspace, more, own, probes, ram_len, vpage, page_below(va));
    }
}

/// A region is built from its own page and at most two others, each once, and
/// each from the whole page of RAM that the hart found for it.
pub proof fn law_region_is_built_from_mapped_pages(
    v: DiscoveryView,
    aspace: u64,
    vpage: u64,
    pa_page: u64,
    probes: Seq<(u64, Option<u64>)>,
    ram_len: nat,
)
    ensures
        ({
            let pages = build_pages(v, aspace, vpage, pa_page, probes, ram_len);
            &&& pages.len() <= 3
            &&& are_found(pages, seq![(vpage, pa_page)], probes, ram_len)
        }),
{
    let own = seq![(vpage, pa_page)];
    assert(own.subrange(0, 1) =~= own);
    assert(are_found(own, own, probes, ram_len));
    lemma_probed(own, own, probes, ram_len, page_above(vpage));
    let seeds = list_at(v.entries, (aspace, vpage));
    let up = if near_end(seeds) {
        probed(own, probes, ram_len, page_above(vpage))
    } else {
        own
    };
    lemma_probed(up, own, probes, ram_len, page_below(vpage));
    let down = if vpage >= 0x1000 && near_start(seeds) {
        probed(up, probes, ram_len, page_below(vpage))
    } else {
        up
    };
    lemma_joined_above(v, aspace, down, own, probes, ram_len, page_above(vpage));
    let above = joined_above(v, aspace, down, probes, ram_len, page_above(vpage));
    lemma_joined_below(v, aspace, above, own, probes, ram_len, vpage, page_below(vpage));
}

/// The code that a region is compiled from is what its pages hold, one page
/// behind another.
pub proof fn law_region_code_is_memory(
    ram: Seq<u8>,
    pages: Seq<PagePair>,
    n: int,
    k: int,
    off: int,
)
    requires
        0 <= k < n <= pages.len(),
        0 <= off < 0x1000,
        forall|i: int|
            0 <= i < pages.len() ==> 0x8000_0000 <= (#[trigger] pages[i]).1 && pages[i].1
                - 0x8000_0000 + 0x1000 <= ram.len(),
    ensures
        code_of(ram, pages, n).len() == n * 0x1000,
        code_of(ram, pages, n)[k * 0x1000 + off] == ram[pages[k].1 - 0x8000_0000 + off],
    decreases n,
{
    assert(0x8000_0000 <= pages[n - 1].1 && pages[n - 1].1 - 0x8000_0000 + 0x1000 <= ram.len());
    if n > 1 {
        if k < n - 1 {
            law_region_code_is_memory(ram, pages, n - 1, k, off);
        } else {
            law_region_code_is_memory(ram, pages, n - 1, 0, off);
        }
    } else {
        assert(code_of(ram, pages, 0).len() == 0);
    }
}

/// The code around a hot pc is what the hart finds there, one page behind another,
/// and zeros where it finds none.
pub proof fn law_window_is_memory(
    ram: Seq<u8>,
    probes: Seq<Option<u64>>,
    n: int,
    k: int,
    off: int,
)
    requires
        0 <= k < n <= probes.len(),
        0 <= off < 0x1000,
    ensures
        window_code(ram, probes, n).len() == n * 0x1000,
        ({
            let b = window_code(ram, probes, n)[k * 0x1000 + off];
            match probes[k] {
                Some(pa) => if 0x8000_0000 <= pa - pa % 0x1000 && pa - pa % 0x1000 - 0x8000_0000
                    + 0x1000 <= ram.len() {
                    b == ram[pa - pa % 0x1000 - 0x8000_0000 + off]
                } else {
                    b == 0
                },
                None => b == 0,
            }
        }),
    decreases n,
{
    if n > 1 {
        if k < n - 1 {
            law_window_is_memory(ram, probes, n - 1, k, off);
        } else {
            law_window_is_memory(ram, probes, n - 1, 0, off);
        }
    } else {
        assert(window_code(ram, probes, 0).len() == 0);
    }
}

proof fn lemma_page_added(list: Seq<PagePair>, page: PagePair)
    requires
        forall|i: int, j: int| 0 <= i < j < list.len() ==> list[i].0 <= list[j].0,
    ensures
        ({
            let more = with_page(list, page);
            &&& more.len() == list.len() + 1
            &&& forall|i: int, j: int| 0 <= i < j < more.len() ==> more[i].0 <= more[j].0
            &&& forall|p: PagePair| #[trigger] more.contains(p) <==> list.contains(p) || p == page
        }),
    decreases list.len(),
{
    let more = with_page(list, page);
    if list.len() == 0 {
        assert(more[0] == page);
    } else if list[0].0 <= page.0 {
        let rest = list.drop_first();
        lemma_page_added(rest, page);
        let tail = with_page(rest, page);
        assert(more =~= seq![list[0]] + tail);
        assert forall|i: int, j: int| 0 <= i < j < more.len() implies more[i].0 <= more[j].0 by {
            if i == 0 {
                assert(tail.contains(tail[j - 1]));
                if tail[j - 1] != page {
                    let k = choose|k: int| 0 <= k < rest.len() && rest[k] == tail[j - 1];
                    assert(list[k + 1] == tail[j - 1]);
                }
            } else {
                assert(tail[i - 1].0 <= tail[j - 1].0);
            }
        }
        assert forall|p: PagePair| #[trigger] more.contains(p) <==> list.contains(p) || p == page by {
            if more.contains(p) {
                let k = choose|k: int| 0 <= k < more.len() && more[k] == p;
                if k > 0 {
                    assert(tail[k - 1] == p);
                    assert(tail.contains(p));
                    if p != page {
                        let m = choose|m: int| 0 <= m < rest.len() && rest[m] == p;
                        assert(list[m + 1] == p);
                    }
                } else {
                    assert(list[0] == p);
                }
            }
            if list.contains(p) {
                let k = choose|k: int| 0 <= k < list.len() && list[k] == p;
                if k > 0 {
                    assert(rest[k - 1] == p);
                    assert(tail.contains(p));
                    let m = choose|m: int| 0 <= m < tail.len() && tail[m] == p;
                    assert(more[m + 1] == p);
                } else {
                    assert(more[0] == p);
                }
            }
            if p == page {
                assert(tail.contains(p));
                let m = choose|m: int| 0 <= m < tail.len() && tail[m] == p;
                assert(more[m + 1] == p);
            }
        }
    } else {
        assert(more =~= seq![page] + list);
        assert forall|p: PagePair| #[trigger] more.contains(p) <==> list.contains(p) || p == page by {
            if list.contains(p) {
                let k = choose|k: int| 0 <= k < list.len() && list[k] == p;
                assert(more[k + 1] == p);
            }
            if more.contains(p) {
                let k = choose|k: int| 0 <= k < more.len() && more[k] == p;
                if k > 0 {
                    assert(list[k - 1] == p);
                }
            }
            assert(more[0] == page);
        }
    }
}

/// The pages of a region are compiled in the order of their addresses: all of
/// them, and nothing else.
pub proof fn law_pages_are_put_in_order(pages: Seq<PagePair>, n: int)
    requires
        0 <= n <= pages.len(),
    ensures
        ({
            let list = pages_in_order(pages, n);
            &&& list.len() == n
            &&& forall|i: int, j: int| 0 <= i < j < n ==> list[i].0 <= list[j].0
            &&& forall|p: PagePair| #[trigger]
                list.contains(p) <==> exists|k: int| 0 <= k < n && pages[k] == p
        }),
    decreases n,
{
    if n > 0 {
        law_pages_are_put_in_order(pages, n - 1);
        let before = pages_in_order(pages, n - 1);
        let list = pages_in_order(pages, n);
        lemma_page_added(before, pages[n - 1]);
        assert forall|p: PagePair| #[trigger] list.contains(p) <==> exists|k: int|
            0 <= k < n && pages[k] == p by {
            if exists|k: int| 0 <= k < n && pages[k] == p {
                let k = choose|k: int| 0 <= k < n && pages[k] == p;
                if k < n - 1 {
                    assert(0 <= k < n - 1 && pages[k] == p);
                    assert(before.contains(p));
                }
            }
            if before.contains(p) {
                let k = choose|k: int| 0 <= k < n - 1 && pages[k] == p;
                assert(0 <= k < n && pages[k] == p);
            }
            if p == pages[n - 1] {
                assert(0 <= n - 1 < n && pages[n - 1] == p);
            }
        }
    }
}

/// The targets of a region's exits join it hottest first.
pub proof fn law_hottest_target_comes_first(targets: Seq<(u64, u32)>, n: int, k: int)
    requires
        0 <= k < n <= targets.len(),
    ensures
        hottest_first(targets, n).len() == n,
        hottest_first(targets, n)[0].1 >= targets[k].1,
        forall|i: int, j: int|
            0 <= i < j < n ==> hottest_first(targets, n)[i].1 >= hottest_first(targets, n)[j].1,
    decreases n,
{
    let before = hottest_first(targets, n - 1);
    if n > 1 {
        if k < n - 1 {
            law_hottest_target_comes_first(targets, n - 1, k);
        } else {
            law_hottest_target_comes_first(targets, n - 1, 0);
        }
    }
    lemma_target_added(before, targets[n - 1]);
}

proof fn lemma_target_added(list: Seq<(u64, u32)>, target: (u64, u32))
    requires
        forall|i: int, j: int| 0 <= i < j < list.len() ==> list[i].1 >= list[j].1,
    ensures
        ({
            let more = with_target(list, target);
            &&& more.len() == list.len() + 1
            &&& forall|i: int, j: int| 0 <= i < j < more.len() ==> more[i].1 >= more[j].1
            &&& more[0].1 >= target.1
            &&& list.len() > 0 ==> more[0].1 >= list[0].1
            &&& more[0] == target || (list.len() > 0 && more[0] == list[0])
        }),
    decreases list.len(),
{
    if list.len() > 0 && list[0].1 >= target.1 {
        let rest = list.drop_first();
        lemma_target_added(rest, target);
        let tail = with_target(rest, target);
        let more = with_target(list, target);
        assert(more =~= seq![list[0]] + tail);
        assert(tail[0].1 <= list[0].1) by {
            if tail[0] != target {
                assert(rest[0] == list[1]);
            }
        }
        assert forall|i: int, j: int| 0 <= i < j < more.len() implies more[i].1 >= more[j].1 by {
            if i == 0 {
                if j > 1 {
                    assert(tail[0].1 >= tail[j - 1].1);
                }
            } else {
                assert(tail[i - 1].1 >= tail[j - 1].1);
            }
        }
    }
}

} // verus!
