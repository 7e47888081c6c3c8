//! Compilations from discovery to landing, and what the dispatcher learns.

use rv64_system::codecache::{CachedRun, CodeDispatch};
use rv64_system::jit::block::{
    JitBlock, PageModuleIssue, PendingBlock, PendingJitKind, PendingRegion,
};
use rv64_system::jit::builds::{
    gather_code, sort_pages, BuildPacing, ExtensionPlan, Leader, RegionPlan,
};
use rv64_system::jit::issue::{
    add_discovered, gather_window, issue_batch, issue_block, span_pages, stage_block,
    trace_entries, window_bounds, ModuleRequest, TraceWindows, Translated,
};
use rv64_system::jit::landing::{Fate, JIT_REGISTER_CAPACITY};
use rv64_system::jit::pages::BuildRecord;
use rv64_system::jit::policy::{JitPolicy, TlbFillPolicy};
use rv64_system::jit::profile::{ModuleProfile, Profile};
use rv64_system::jit::queue::JitQueue;
use rv64_system::jit::regions::{ExitOutcome, DEMOTE_MIN_SAMPLES, EXT_TRIGGER};
use rv64_system::jit::run::{
    table_index, AfterChain, Dispatched, ExitTick, Lookup, Run, SuperblockStep, JIT_CHAIN_CAP,
};
use rv64_system::jit::state::{
    fp_gate_open, tlb_fill_on, InterpreterDispatch, JitState, SB_IDX_BIT,
};
use rv64_system::jit::stats::{analyze_superblock, Counter, Counters};
use rv64_system::jit::table::Retirement;
use rv64_system::machine::SliceStop;
use rv64_system::{JitPageState, RAM_BASE};

const PAGE: u64 = 0x1000;

fn block(idx: i32, n: u32, pa: u64) -> JitBlock {
    JitBlock {
        fp: false,
        idx,
        n,
        mix: [0; 5],
        mem: [0; 10],
        control: [0; 3],
        alu: [0; 5],
        pa,
        last_used: 0,
    }
}

fn pending(pc: u64, n: u32, pages: Vec<(u64, u64)>, generations: Vec<u64>) -> PendingBlock {
    let pa = pages[0].1 + pc % PAGE;
    PendingBlock {
        aspace: 7,
        pc,
        block: block(-1, n, pa),
        pages,
        page_generations: generations,
        seeds: Vec::new(),
        trace_pcs: Vec::new(),
        missed_superblock: false,
    }
}

fn translated(pc: u64, n_insns: u32) -> Translated {
    Translated {
        pc,
        n_insns,
        uses_fp: false,
        mix: [0; 5],
        mem: [0; 10],
        control: [0; 3],
        alu: [0; 5],
        span: (0, 0),
        seeds: Vec::new(),
        trace_pcs: Vec::new(),
    }
}

fn marked_ram(pages: usize) -> JitPageState {
    let mut ram = JitPageState::new(pages * PAGE as usize);
    for page in 0..pages as u64 {
        ram.mark_address(RAM_BASE + page * PAGE);
    }
    ram
}

/// Put a block through the queue and land it at `base`.
fn land_block(jit: &mut JitState, queue: &mut JitQueue, ram: &JitPageState, pc: u64, base: i32) {
    queue.begin_run();
    let ticket = queue
        .submit(PendingJitKind::Block(pending(
            pc,
            8,
            vec![(pc & !0xfff, RAM_BASE + PAGE)],
            vec![0],
        )))
        .unwrap();
    let policy = JitPolicy::new();
    assert_eq!(
        jit.complete(queue, ram, &policy, ticket, base, 1),
        Some(Fate::Landed)
    );
}

#[test]
fn a_landed_block_is_found_and_verified_before_it_runs() {
    let mut jit = JitState::new();
    let mut queue = JitQueue::new();
    let ram = marked_ram(4);
    let pc = 0x4_0120;
    land_block(&mut jit, &mut queue, &ram, pc, 5);
    assert!(jit.compiled(pc));

    // No line yet: the mapping has to be looked at.
    let found = match jit.lookup(pc, 3) {
        Lookup::Verify(block, pages) => {
            assert!(pages.is_none());
            block
        }
        _ => unreachable!(),
    };
    assert_eq!(found.idx, 5);
    assert_eq!(found.pa, RAM_BASE + PAGE + 0x120);
    assert_eq!(jit.verified(pc, found, true, 3), Some(5));
    assert!(matches!(jit.lookup(pc, 3), Lookup::Hit(5)));
    assert_eq!(jit.chain_target(pc, 3), Some(5));
    // Another generation of mappings asks again, and a moved page drops it.
    assert!(matches!(jit.lookup(pc, 4), Lookup::Verify(..)));
    assert_eq!(jit.chain_target(pc, 4), None);
    assert_eq!(jit.verified(pc, found, false, 4), None);
    assert!(!jit.compiled(pc));
    assert!(matches!(jit.lookup(pc, 3), Lookup::Miss));
    assert_eq!(
        jit.code.table.take_retirements(),
        vec![Retirement { slot: 5, evicted: false }]
    );
}

#[test]
fn stale_superseded_and_unknown_results_release_their_slots() {
    let mut jit = JitState::new();
    let mut queue = JitQueue::new();
    let policy = JitPolicy::new();
    let mut ram = marked_ram(4);

    // Written while it was compiled.
    let ticket = queue
        .submit(PendingJitKind::Block(pending(
            0x4000,
            8,
            vec![(0x4000, RAM_BASE)],
            vec![0],
        )))
        .unwrap();
    ram.note_store(RAM_BASE + 4);
    assert_eq!(
        jit.complete(&mut queue, &ram, &policy, ticket, 3, 1),
        Some(Fate::Stale)
    );
    assert!(!jit.compiled(0x4000));
    assert_eq!(
        jit.code.table.take_retirements(),
        vec![Retirement { slot: 3, evicted: false }]
    );

    // From before a reboot: the ticket is gone.
    queue.begin_run();
    let ticket = queue
        .submit(PendingJitKind::Block(pending(
            0x5000,
            8,
            vec![(0x5000, RAM_BASE + PAGE)],
            vec![0],
        )))
        .unwrap();
    queue.reboot();
    assert_eq!(jit.complete(&mut queue, &ram, &policy, ticket, 4, 2), None);
    assert_eq!(
        jit.code.table.take_retirements(),
        vec![
            Retirement { slot: 4, evicted: false },
            Retirement { slot: 5, evicted: false },
        ]
    );

    // A newer build owns a shared page.
    queue.begin_run();
    let region = |pages: Vec<(u64, u64)>| {
        PendingJitKind::Region(PendingRegion {
            aspace: 7,
            lead: 0x6000,
            pages,
            page_generations: vec![0],
            entries: vec![0x6000],
        })
    };
    let first = queue.submit(region(vec![(0x6000, RAM_BASE + PAGE)])).unwrap();
    jit.pages.claim_pending_superblock(first, 7, &[(0x6000, RAM_BASE + PAGE)]);
    queue.begin_run();
    let second = queue.submit(region(vec![(0x6000, RAM_BASE + PAGE)])).unwrap();
    jit.pages.claim_pending_superblock(second, 7, &[(0x6000, RAM_BASE + PAGE)]);
    assert_eq!(
        jit.complete(&mut queue, &ram, &policy, first, 8, 1),
        Some(Fate::Superseded)
    );
    assert_eq!(
        jit.complete(&mut queue, &ram, &policy, second, 9, 1),
        Some(Fate::Landed)
    );
    assert!(jit.compiled(0x6000));

    // Other slots than were asked for, and a failed compile.
    queue.begin_run();
    let ticket = queue
        .submit(PendingJitKind::Block(pending(
            0x7000,
            8,
            vec![(0x7000, RAM_BASE + PAGE)],
            vec![0],
        )))
        .unwrap();
    assert_eq!(
        jit.complete(&mut queue, &ram, &policy, ticket, 20, 2),
        Some(Fate::Mismatched)
    );
    queue.begin_run();
    let ticket = queue
        .submit(PendingJitKind::Block(pending(
            0x7000,
            8,
            vec![(0x7000, RAM_BASE + PAGE)],
            vec![0],
        )))
        .unwrap();
    assert_eq!(
        jit.complete(&mut queue, &ram, &policy, ticket, -1, 1),
        Some(Fate::Failed)
    );
    assert!(!jit.compiled(0x7000));
}

#[test]
fn a_full_code_store_evicts_one_cold_module() {
    let mut jit = JitState::new();
    let mut queue = JitQueue::new();
    let ram = marked_ram(4);
    let policy = JitPolicy::new();
    land_block(&mut jit, &mut queue, &ram, 0x4_0100, 1);
    land_block(&mut jit, &mut queue, &ram, 0x4_0200, 2);
    jit.touch(0x4_0100);
    jit.code.table.take_retirements();

    queue.begin_run();
    let ticket = queue
        .submit(PendingJitKind::Block(pending(
            0x4_0300,
            8,
            vec![(0x4_0000, RAM_BASE + PAGE)],
            vec![0],
        )))
        .unwrap();
    assert_eq!(
        jit.complete(&mut queue, &ram, &policy, ticket, JIT_REGISTER_CAPACITY, 1),
        Some(Fate::Full)
    );
    assert!(jit.compiled(0x4_0100));
    assert!(!jit.compiled(0x4_0200));
    assert!(!queue.issue_allowed());
    assert!(!queue.compilation_allowed());
    assert_eq!(queue.rejections(), 1);
    assert_eq!(
        jit.code.table.take_retirements(),
        vec![Retirement { slot: 2, evicted: true }]
    );
    queue.begin_run();
    assert!(queue.issue_allowed());
}

#[test]
fn a_page_module_replaces_the_module_before_it() {
    let mut jit = JitState::new();
    let mut queue = JitQueue::new();
    let mut policy = JitPolicy::new();
    policy.jit_set_page_modules(1);
    let mut ram = JitPageState::new(4 * PAGE as usize);
    let vpage = 0x9000u64;
    let pa_page = RAM_BASE + 2 * PAGE;

    jit.note_hot(&policy, 7, vpage + 0x10, false);
    assert!(matches!(
        jit.request_page_module(&policy, &queue, &ram, 7, vpage + 0x10, pa_page, true),
        ModuleRequest::Individual
    ));
    jit.note_hot(&policy, 7, vpage + 0x20, false);
    for (round, slot) in [(0, 10), (1, 20)] {
        queue.begin_run();
        let plan =
            match jit.request_page_module(&policy, &queue, &ram, 7, vpage + 0x10, pa_page, true) {
                ModuleRequest::Build(plan) => plan,
                _ => unreachable!(),
            };
        assert_eq!(plan.seeds, vec![vpage + 0x10, vpage + 0x20]);
        assert_eq!(plan.prior.is_some(), round == 1);
        let (issue, newly) = jit.issue_page_module(
            &mut queue,
            &mut ram,
            7,
            vpage + 0x10,
            pa_page,
            plan,
            Some(vec![translated(vpage + 0x10, 3), translated(vpage + 0x20, 4)]),
        );
        assert_eq!(issue, PageModuleIssue::Issued);
        assert_eq!(newly.is_empty(), round == 1);
        queue.begin_run();
        assert!(matches!(
            jit.request_page_module(&policy, &queue, &ram, 7, vpage + 0x10, pa_page, true),
            ModuleRequest::Awaiting
        ));
        let ticket = queue.pending[0].ticket;
        assert_eq!(
            jit.complete(&mut queue, &ram, &policy, ticket, slot, 1),
            Some(Fate::Landed)
        );
        assert!(jit.code.page_module_owns_cached_entry(7, vpage + 0x20));
        assert_eq!(jit.code.slot_owner.len(), 1);
        assert!(jit.code.slot_owner.contains_key(&slot));
        // The next module is compiled from newer code.
        ram.note_store(pa_page);
        ram.take_dirty();
    }
    // A translation that fails is not tried again from the same code.
    queue.begin_run();
    let key = (7, 0xa000);
    jit.note_hot(&policy, 7, 0xa010, false);
    jit.note_hot(&policy, 7, 0xa020, false);
    let plan = match jit.request_page_module(&policy, &queue, &ram, 7, 0xa010, pa_page, true) {
        ModuleRequest::Build(plan) => plan,
        _ => unreachable!(),
    };
    let (issue, _) =
        jit.issue_page_module(&mut queue, &mut ram, 7, 0xa010, pa_page, plan, None);
    assert_eq!(issue, PageModuleIssue::Individual);
    assert!(jit.code.page_modules.contains_key(&key));
    assert!(matches!(
        jit.request_page_module(&policy, &queue, &ram, 7, 0xa010, pa_page, true),
        ModuleRequest::Individual
    ));
}

#[test]
fn written_code_is_dropped_and_only_that() {
    let mut jit = JitState::new();
    let mut queue = JitQueue::new();
    let mut ram = marked_ram(4);
    land_block(&mut jit, &mut queue, &ram, 0x4_0100, 1);
    queue.begin_run();
    let ticket = queue
        .submit(PendingJitKind::Block(pending(
            0x5_0100,
            8,
            vec![(0x5_0000, RAM_BASE + 2 * PAGE), (0x5_1000, RAM_BASE + 3 * PAGE)],
            vec![0, 0],
        )))
        .unwrap();
    let policy = JitPolicy::new();
    jit.complete(&mut queue, &ram, &policy, ticket, 2, 1);
    assert!(jit.compiled(0x5_0100));

    // The second page of a multi-page block.
    ram.note_store(RAM_BASE + 3 * PAGE + 8);
    assert_eq!(jit.drain_written(&mut ram), 1);
    assert!(!jit.compiled(0x5_0100));
    assert!(jit.compiled(0x4_0100));
    assert!(!ram.has_dirty());
    assert!(!ram.page_marked(3));
    assert!(ram.page_marked(1));
    // Nothing is written twice.
    assert_eq!(jit.drain_written(&mut ram), 0);
}

#[test]
fn staged_traces_share_a_module_and_leave_with_their_pages() {
    let mut jit = JitState::new();
    let mut queue = JitQueue::new();
    let mut policy = JitPolicy::new();
    policy.jit_set_confirmed_batch_target(0);
    assert_eq!(policy.confirmed_batch_target, 2);
    let mut ram = JitPageState::new(4 * PAGE as usize);
    let source = [(0x9000, RAM_BASE), (0xa000, RAM_BASE + PAGE)];

    let mut first = translated(0x9ffe, 3);
    first.span = (0x9ffe, 0xa004);
    first.trace_pcs = vec![0xa000, 0x9ffe];
    first.seeds = vec![0xa002, 0xa000];
    let (staged, newly) = stage_block(&mut ram, &policy, 7, &source, 11, &first, true);
    let staged = staged.unwrap();
    assert_eq!(newly, vec![RAM_BASE, RAM_BASE + PAGE]);
    assert_eq!(staged.pending.pages, source.to_vec());
    assert_eq!(staged.pending.block.pa, RAM_BASE + 0xffe);
    assert_eq!(staged.pending.trace_pcs, vec![0x9ffe, 0xa000, 0xa002]);
    jit.push_staged(staged);
    assert!(jit.covers(7, 0xa002));
    assert!(!jit.covers(8, 0xa002));
    assert!(!jit.may_compile(&queue, 7, 0x9ffe));
    assert!(jit.submit_confirmed_stage(&mut queue, &policy).is_none());

    let (second, _) = stage_block(&mut ram, &policy, 7, &source, 12, &translated(0xa100, 2), false);
    jit.push_staged(second.unwrap());
    let (bodies, ticket) = jit.submit_confirmed_stage(&mut queue, &policy).unwrap();
    assert_eq!(bodies, vec![11, 12]);
    assert!(jit.confirmed_stage.is_empty());
    assert!(queue.contains_pc(7, 0xa100));
    assert_eq!(
        jit.complete(&mut queue, &ram, &policy, ticket, 30, 2),
        Some(Fate::Landed)
    );
    assert!(!jit.covers(7, 0xa002));
    assert!(jit.compiled(0x9ffe));
    assert!(jit.compiled(0xa100));
    assert_eq!(queue.cell_base(0), 30);

    // A staged trace goes when its code is written.
    let (third, _) = stage_block(&mut ram, &policy, 7, &source, 13, &translated(0x9000, 2), false);
    let third = third.unwrap();
    jit.push_staged(third);
    ram.note_store(RAM_BASE);
    jit.drain_written(&mut ram);
    assert!(jit.confirmed_stage.is_empty());
    // A span that leaves the window cannot be staged.
    let mut outside = translated(0xb000, 1);
    outside.span = (0xafff, 0xb001);
    assert!(stage_block(&mut ram, &policy, 7, &source, 14, &outside, false).0.is_none());
}

#[test]
fn blocks_and_batches_take_one_issue_per_run() {
    let mut queue = JitQueue::new();
    let policy = JitPolicy::new();
    let mut ram = JitPageState::new(2 * PAGE as usize);
    let source = [(0x9000, RAM_BASE)];

    let (ticket, newly) = issue_block(
        &mut queue,
        &mut ram,
        &policy,
        7,
        &source,
        &translated(0x9010, 2),
        RAM_BASE + 0x10,
        8,
        true,
    );
    assert_eq!(ticket, Some(1));
    assert_eq!(newly, vec![RAM_BASE]);
    let (again, _) = issue_block(
        &mut queue,
        &mut ram,
        &policy,
        7,
        &source,
        &translated(0x9020, 2),
        RAM_BASE + 0x20,
        8,
        true,
    );
    assert_eq!(again, None);
    queue.begin_run();
    let cell = queue.next_batch_cell();
    let bodies = [translated(0x9030, 1), translated(0x9040, 1)];
    assert!(issue_batch(&mut queue, &mut ram, 7, &source, &bodies[..1], cell).is_none());
    let (ticket, _) = issue_batch(&mut queue, &mut ram, 7, &source, &bodies, cell).unwrap();
    assert_eq!(ticket, 2);
    assert_eq!(queue.kinds(), (1, 1, 0));
    assert_eq!(queue.pending[1].slot_count(), 2);
}

#[test]
fn code_that_cannot_be_compiled_is_noted_until_it_is_written() {
    let mut jit = JitState::new();
    let queue = JitQueue::new();
    let mut ram = JitPageState::new(2 * PAGE as usize);
    assert!(jit.may_compile(&queue, 7, 0x9010));
    assert!(jit.blacklist(&mut ram, 7, 0x9010, RAM_BASE + 0x10, true));
    assert!(!jit.compiled(0x9010));
    assert!(!jit.may_compile(&queue, 7, 0x9010));
    assert_eq!(jit.pages.missed_of(&(7, 0x9000)), 1);
    assert_eq!(jit.entry_kind(0x9010), 2);
    assert_eq!(jit.entry_kind(0x9014), 0);
    ram.note_store(RAM_BASE);
    jit.drain_written(&mut ram);
    assert!(jit.may_compile(&queue, 7, 0x9010));
}

#[test]
fn the_interpreter_stops_at_compiled_and_at_hot_code() {
    let mut jit = JitState::new();
    let mut queue = JitQueue::new();
    let ram = marked_ram(4);
    land_block(&mut jit, &mut queue, &ram, 0x4_0100, 1);
    let mut policy = JitPolicy::new();
    policy.jit_set_threshold(5);
    policy.jit_set_page_modules(1);
    let mut dispatch = InterpreterDispatch {
        jit: &mut jit,
        policy,
        tier_up: true,
        aspace: 7,
    };
    assert!(dispatch.contains(0x4_0100));
    assert!(dispatch.observe(0x4_0100));
    assert!(!dispatch.contains(0x4_0104));
    let stops: Vec<bool> = (0..5).map(|_| dispatch.observe(0x4_0104)).collect();
    assert_eq!(stops, [false, false, false, false, true]);
    dispatch.tier_up = false;
    assert!(!dispatch.observe(0x4_0104));
    assert_eq!(jit.heat.heat_of(0x4_0104), Some(5));
    assert_eq!(jit.pages.hot_entries_of(&(7, 0x4_0000)), vec![0x4_0104]);
}

#[test]
fn a_cached_run_asks_the_dispatcher_after_its_first_block() {
    let mut jit = JitState::new();
    let mut policy = JitPolicy::new();
    policy.jit_set_threshold(2);
    let mut dispatch = InterpreterDispatch {
        jit: &mut jit,
        policy,
        tier_up: true,
        aspace: 7,
    };
    let pc = 0x4_0104;
    let mut run = CachedRun::begin(100, 10);
    assert_eq!(run.next(&mut dispatch, pc, 100), Ok(10));
    assert_eq!(run.next(&mut dispatch, pc, 103), Ok(7));
    assert_eq!(run.next(&mut dispatch, pc, 106), Err(SliceStop::Compiled));
    assert!(dispatch.tier_up && dispatch.aspace == 7);
    assert_eq!(run.next(&mut dispatch, 0x4_0200, 110), Err(SliceStop::Budget));
    assert_eq!(jit.heat.heat_of(pc), Some(2));
}

#[test]
fn a_stable_edge_is_extended_once() {
    let mut jit = JitState::new();
    let mut queue = JitQueue::new();
    let ram = marked_ram(4);
    let mut policy = JitPolicy::new();
    policy.jit_set_ic_trigger(3);
    let pc = 0x4_0100;
    let step = |next| Dispatched {
        pc,
        idx: 1,
        next,
        retired: 4,
        fp_gate_open: true,
    };
    land_block(&mut jit, &mut queue, &ram, pc, 1);
    assert!(!jit.learn_successor(&policy, step(0x100)));
    assert!(!jit.learn_successor(&policy, step(0x200)));
    assert!(!jit.learn_successor(&policy, step(0x200)));
    assert!(jit.learn_successor(&policy, step(0x200)));
    assert!(!jit.compiled(pc));
    assert_eq!(jit.succ.next(pc, 3), Some(0x200));
    land_block(&mut jit, &mut queue, &ram, pc, 1);
    for _ in 0..10 {
        assert!(!jit.learn_successor(&policy, step(0x200)));
    }
    assert!(jit.compiled(pc));
}

#[test]
fn repeated_bails_recompile_an_entry_once() {
    let mut jit = JitState::new();
    let mut queue = JitQueue::new();
    let ram = marked_ram(4);
    let mut policy = JitPolicy::new();
    let pc = 0x4_0100;
    land_block(&mut jit, &mut queue, &ram, pc, 1);
    // Bails elsewhere make refill material.
    for _ in 0..65_530 {
        assert!(!jit.observe_tlb_bail(&policy, true, 0x8_0200));
    }
    assert_eq!(jit.bails.counts(), (65_530, false));
    let removed: Vec<bool> = (0..20).map(|_| jit.observe_tlb_bail(&policy, true, pc)).collect();
    assert_eq!(removed.iter().position(|&r| r), Some(7));
    assert_eq!(removed.iter().filter(|&&r| r).count(), 1);
    assert!(!jit.compiled(pc));
    assert_eq!(jit.bails.counts(), (65_550, true));
    assert!(tlb_fill_on(&policy, true));
    policy.jit_set_tlb_fill(0);
    assert_eq!(policy.tlb_fill, TlbFillPolicy::Off);
    assert!(!tlb_fill_on(&policy, true));
    assert!(!jit.observe_tlb_bail(&policy, true, pc + 2));
    assert_eq!(jit.bails.counts().0, 65_550);
    assert!(fp_gate_open(0x01, 3));
    assert!(!fp_gate_open(0x00, 3));
    assert!(!fp_gate_open(0x21, 3));
    assert!(!fp_gate_open(0x01, 1));
}

/// A region over one page, landed under slot 4.
fn region_state() -> (JitState, JitQueue, JitPageState, JitPolicy) {
    let mut jit = JitState::new();
    let mut queue = JitQueue::new();
    let mut ram = JitPageState::new(8 * PAGE as usize);
    let policy = JitPolicy::new();
    let mut pacing = BuildPacing {
        last_build: 0,
        next_look: 0,
    };
    let plan = RegionPlan {
        aspace: 7,
        lead: 0x9000,
        pages: vec![(0x9000, RAM_BASE + PAGE)],
        compiles: 0,
        n_entries: 6,
        unproductive: true,
        regs_in_memory: false,
    };
    let (ticket, newly) = jit
        .issue_region(&mut queue, &mut ram, &mut pacing, &plan, vec![0x9000, 0x9040], 100)
        .unwrap();
    assert_eq!(newly, vec![RAM_BASE + PAGE]);
    assert_eq!(pacing.last_build, 100);
    assert_eq!(
        jit.pages.build_of(&(7, 0x9000)),
        BuildRecord {
            entries: 6,
            compiles: 1,
            when: 100
        }
    );
    assert_eq!(
        jit.complete(&mut queue, &ram, &policy, ticket, 4, 1),
        Some(Fate::Landed)
    );
    (jit, queue, ram, policy)
}

#[test]
fn a_region_that_does_not_hold_is_demoted_for_good() {
    let (mut jit, _, _, policy) = region_state();
    assert!(jit.compiled(0x9040));
    assert_eq!(jit.tagged_dispatch_index(jit.code.entry(0x9040).unwrap().unwrap()), 4 | SB_IDX_BIT);
    assert_eq!(table_index(4 | SB_IDX_BIT), 4);
    // Refusals are not stays.
    assert_eq!(jit.record_region_exit(&policy, 4, 0x9100, 0), ExitOutcome::InRegion);
    for _ in 0..DEMOTE_MIN_SAMPLES - 1 {
        assert_eq!(jit.record_region_exit(&policy, 4, 0x9100, 10), ExitOutcome::InRegion);
    }
    assert_eq!(jit.record_region_exit(&policy, 4, 0x9100, 10), ExitOutcome::Demoted);
    assert!(!jit.compiled(0x9000));
    assert!(!jit.compiled(0x9040));
    assert_eq!(jit.record_region_exit(&policy, 4, 0x9100, 10), ExitOutcome::Unknown);
    assert!(!jit.wants_superblock((7, 0x9000), 1000, u64::MAX));
}

#[test]
fn a_region_grows_along_its_measured_exits() {
    let (mut jit, mut queue, ram, mut policy) = region_state();
    policy.sys_set_superblock(1);
    // Code at the target, compiled and hot.
    jit.pages.record_page_entry(7, 0xc010);
    jit.pages.record_page_entry(7, 0xd010);
    queue.begin_run();
    let ticket = queue
        .submit(PendingJitKind::Block(pending(
            0xc010,
            8,
            vec![(0xc000, RAM_BASE + 2 * PAGE)],
            vec![0],
        )))
        .unwrap();
    let mut ram = ram;
    ram.mark_address(RAM_BASE + 2 * PAGE);
    jit.complete(&mut queue, &ram, &policy, ticket, 9, 1);

    let mut tick = ExitTick { tick: 31 };
    let d = Dispatched {
        pc: 0x9000,
        idx: 4 | SB_IDX_BIT,
        next: 0xc010,
        retired: 100,
        fp_gate_open: true,
    };
    assert_eq!(jit.learn_exit(&policy, &mut tick, d), Some(ExitOutcome::Left));
    assert_eq!(jit.learn_exit(&policy, &mut tick, d), None);
    for _ in 0..EXT_TRIGGER - 2 {
        assert_eq!(jit.record_region_exit(&policy, 4, 0xd010, 100), ExitOutcome::Left);
    }
    assert_eq!(jit.record_region_exit(&policy, 4, 0xc010, 100), ExitOutcome::Queued);
    assert_eq!(jit.take_extension(8), None);
    assert_eq!(jit.take_extension(7), Some(4));
    assert_eq!(jit.take_extension(7), None);

    // The wait after the last build is not over.
    assert!(matches!(
        jit.plan_extension(4, 101, 8 * PAGE as usize),
        ExtensionPlan::Cooling
    ));
    match jit.plan_extension(4, 100_000_000, 8 * PAGE as usize) {
        ExtensionPlan::Build(plan) => {
            // The hotter target has no compiled code to learn its page from.
            assert_eq!(
                plan.pages,
                vec![(0x9000, RAM_BASE + PAGE), (0xc000, RAM_BASE + 2 * PAGE)]
            );
            assert!(!plan.regs_in_memory);
        }
        _ => unreachable!(),
    }
    assert!(matches!(
        jit.plan_extension(4, 100_000_000, 8 * PAGE as usize),
        ExtensionPlan::Gone
    ));
}

#[test]
fn a_page_wants_a_superblock_once_it_is_branchy() {
    let mut jit = JitState::new();
    let mut policy = JitPolicy::new();
    policy.sys_set_superblock(1);
    let key = (7, 0x9000);
    let mut n = 0;
    for i in 0..6 {
        n = jit.note_hot(&policy, 7, 0x9100 + i * 8, false);
    }
    assert_eq!(n, 6);
    assert_eq!(jit.note_hot(&policy, 7, 0x9200, true), 0);
    assert_eq!(
        jit.superblock_step(key, 5, false, true, true, 0),
        SuperblockStep::Nothing
    );
    assert_eq!(
        jit.superblock_step(key, n, false, true, false, 0),
        SuperblockStep::Deferred
    );
    assert_eq!(jit.pages.take_deferred(8), None);
    assert_eq!(jit.pages.take_deferred(7), Some(0x9000));
    assert_eq!(
        jit.superblock_step(key, n, false, true, true, 0),
        SuperblockStep::Build
    );
    assert_eq!(
        jit.superblock_step(key, n, true, true, true, 0),
        SuperblockStep::Nothing
    );

    // The neighbours: the page above is hot, the one below is not.
    jit.pages.record_page_entry(7, 0xa010);
    let probes = [
        (0xa000, Some(RAM_BASE + 5 * PAGE + 3)),
        (0x8000, Some(RAM_BASE + 6 * PAGE)),
    ];
    let plan = jit.plan_superblock(7, 0x9000, RAM_BASE + PAGE, &probes, 8 * PAGE as usize);
    assert_eq!(
        plan.pages,
        vec![(0x9000, RAM_BASE + PAGE), (0xa000, RAM_BASE + 5 * PAGE)]
    );
    assert!(!plan.unproductive);
    let run = jit.region_run(7, &plan.pages, 0);
    assert_eq!((run.first, run.last), (0, 1));
    assert_eq!(run.seeds.len(), 7);
    // Outside RAM nothing joins.
    let plan = jit.plan_superblock(7, 0x9000, RAM_BASE + PAGE, &probes, 2 * PAGE as usize);
    assert_eq!(plan.pages.len(), 1);
}

#[test]
fn a_run_keeps_its_budgets() {
    let mut run = Run::new(3_000_000);
    assert!(run.goes_on(false, false));
    assert!(!run.goes_on(true, false));
    assert!(!run.goes_on(false, true));
    run.begin_chain();
    assert_eq!(run.round_budget, 1 << 20);
    assert!(run.chain_goes_on());
    assert_eq!(run.grant_fuel(), Some(1 << 20));
    assert!(!run.account(5000, false));
    assert_eq!(run.grant_fuel(), Some((1 << 20) - 5000));
    assert!(!run.account(10, false));
    assert_eq!(run.grant_fuel(), None);
    assert!(run.account(0, false));
    assert_eq!(run.end_chain(false), AfterChain::Break);
    assert_eq!(run.remaining, 3_000_000 - 5010);

    run.begin_chain();
    for _ in 0..JIT_CHAIN_CAP {
        assert!(run.chain_goes_on());
        run.account(1, false);
    }
    assert!(!run.chain_goes_on());
    assert_eq!(run.end_chain(false), AfterChain::Boundary);
    assert_eq!(run.slice(), 4096);
    assert!(run.end_slice(0, false, false));
    assert!(!run.end_slice(5, true, false));
    let left = run.remaining;
    run.begin_chain();
    run.account(left + 7, false);
    assert_eq!(run.end_chain(false), AfterChain::Yield);
    assert_eq!(run.remaining, 0);
}

#[test]
fn modules_take_usable_leaders_only() {
    let entries = trace_entries(0x9010, &[0x9010, 0x9020, 0x9030], &[true, false, true]);
    assert_eq!(entries, vec![0x9010, 0x9030]);
    let mut entries = entries;
    let leader = |pc, emittable, back, is_loop| Leader {
        pc,
        emittable,
        back,
        is_loop,
    };
    add_discovered(
        &mut entries,
        &[
            leader(0x9030, true, false, false),
            leader(0x9040, false, false, false),
            leader(0x9050, true, true, true),
            leader(0x9060, true, true, false),
        ],
    );
    assert_eq!(entries, vec![0x9010, 0x9030, 0x9060]);
}

#[test]
fn windows_and_pages_are_gathered_from_ram() {
    let mut ram = vec![0u8; 3 * PAGE as usize];
    ram[0] = 1;
    ram[PAGE as usize] = 2;
    ram[2 * PAGE as usize] = 3;
    let pages = sort_pages(&[(0xb000, RAM_BASE), (0x9000, RAM_BASE + 2 * PAGE)]);
    assert_eq!(pages, vec![(0x9000, RAM_BASE + 2 * PAGE), (0xb000, RAM_BASE)]);
    let code = gather_code(&ram, &pages);
    assert_eq!((code.len(), code[0], code[PAGE as usize]), (2 * PAGE as usize, 3, 1));

    assert_eq!(window_bounds(0x4_5000, true), (0x4_5000, 1));
    assert_eq!(window_bounds(0x4_5000, false), (0x4_0000, 64));
    let w = gather_window(&ram, 7, 1, 2, 0x4_0000, &[None, Some(RAM_BASE + PAGE + 8), Some(0)]);
    assert_eq!(w.pages, vec![(0x4_1000, RAM_BASE + PAGE)]);
    assert_eq!(w.buf[PAGE as usize], 2);
    assert_eq!(w.buf.len(), 3 * PAGE as usize);
    let mut windows = TraceWindows::new();
    assert_eq!(windows.insert(w), 0);
    assert_eq!(windows.find(7, 1, 2, 0x4_0000), Some(0));
    assert_eq!(windows.find(7, 2, 2, 0x4_0000), None);
    for i in 1..9 {
        windows.insert(gather_window(&ram, 7, 1, 2, 0x8_0000 * i, &[None]));
    }
    assert_eq!(windows.windows.len(), 8);
    assert_eq!(windows.find(7, 1, 2, 0x4_0000), None);

    let source = [(0x9000, RAM_BASE), (0xa000, RAM_BASE + PAGE)];
    assert_eq!(span_pages(&source, 0x9ffe, 0xa002), Some(source.to_vec()));
    assert_eq!(span_pages(&source, 0x9000, 0xa000), Some(source[..1].to_vec()));
    assert_eq!(span_pages(&source, 0xaffe, 0xb002), None);
}

#[test]
fn address_spaces_are_forgotten_but_not_their_code() {
    let mut jit = JitState::new();
    let mut queue = JitQueue::new();
    let ram = marked_ram(4);
    land_block(&mut jit, &mut queue, &ram, 0x4_0100, 1);
    for i in 0..16_385u64 {
        jit.pages.page_entries.insert((i, 0x1000), vec![0x1000]);
    }
    jit.note_space_switch(0);
    assert_eq!(jit.pages.page_entries.len(), 16_385);
    jit.note_space_switch(1);
    assert_eq!(jit.pages.page_entries.len(), 0);
    assert!(jit.compiled(0x4_0100));
}

#[test]
fn clearing_releases_every_slot() {
    let mut jit = JitState::new();
    let mut queue = JitQueue::new();
    let ram = marked_ram(4);
    land_block(&mut jit, &mut queue, &ram, 0x4_0100, 1);
    land_block(&mut jit, &mut queue, &ram, 0x4_0200, 2);
    jit.clear();
    assert!(!jit.compiled(0x4_0100));
    let mut slots: Vec<i32> = jit.code.table.take_retirements().iter().map(|r| r.slot).collect();
    slots.sort_unstable();
    assert_eq!(slots, vec![1, 2]);
    assert_eq!(jit.code.table.live_count(), 0);
    assert_eq!(jit.code.table.counts(), (2, 2));
}

#[test]
fn statistics_are_numbered() {
    let mut jit = JitState::new();
    let mut queue = JitQueue::new();
    let ram = marked_ram(4);
    let mut profile = Profile::new();
    let mut counters = Counters::new();
    land_block(&mut jit, &mut queue, &ram, 0x4_0100, 1);
    counters.count(Counter::SbLanded, 3);
    counters.count(Counter::PageModulesIssued, 2);
    let stat = |jit: &JitState, profile: &Profile, which| {
        jit.jit_stat(&queue, profile, &counters, which)
    };
    assert_eq!(stat(&jit, &profile, 3), 1);
    assert_eq!(stat(&jit, &profile, 13), 3);
    assert_eq!(stat(&jit, &profile, 87), 2);
    assert_eq!(stat(&jit, &profile, 17), 0);
    assert_eq!(stat(&jit, &profile, 73), 1);
    assert_eq!(stat(&jit, &profile, 82), 1);
    assert_eq!(stat(&jit, &profile, 83), 1);
    assert_eq!(stat(&jit, &profile, 2), 0);
    assert_eq!(stat(&jit, &profile, 93), 0);

    profile.dprof_set(1);
    profile.dprof_set_sample_shift(1);
    assert!(!profile.sample());
    assert!(profile.sample());
    profile.note_dispatch(0x4_0100, 0x4_0200, 9);
    let row = ((0x4_0100u64 >> 1) ^ (0x4_0100 >> 13)) as u32 & 8191;
    assert_eq!(profile.dprof_get(0, row), 0x4_0100);
    assert_eq!(profile.dprof_get(1, row), 1);
    assert_eq!(profile.dprof_get(2, row), 9);
    let mut traced = block(1, 10, RAM_BASE);
    traced.mix = [4, 3, 2, 1, 0];
    profile.note_call(false, Some(traced), 100);
    profile.note_call(true, None, 7);
    assert_eq!(stat(&jit, &profile, 46), 1);
    assert_eq!(stat(&jit, &profile, 47), 100);
    assert_eq!(stat(&jit, &profile, 48), 1);
    assert_eq!(stat(&jit, &profile, 49), 7);
    let mix: Vec<u64> = (50..55).map(|i| stat(&jit, &profile, i)).collect();
    assert_eq!(mix, vec![40, 30, 20, 10, 0]);
    profile.note_insn(0x0000_0013);
    profile.charge_stretch(55);
    let hits: u64 = (0..1024).map(|i| profile.ihist_get(1, i)).sum();
    let charged: u64 = (0..1024).map(|i| profile.ihist_get(2, i)).sum();
    assert_eq!((hits, charged), (1, 55));

    let mut modules = ModuleProfile::new();
    assert_eq!(modules.layout(1000), None);
    modules.memprof_set(4 | 1);
    modules.note_module(2000);
    assert_eq!(modules.memprof_get(9), 2000);
    assert_eq!(modules.memprof_get(12), 1);
    assert_eq!(modules.memprof_get(16), 2000);
    let addrs = modules.layout(1000).unwrap();
    assert_eq!(addrs[..6], [1000, 1008, 1016, 1024, 1032, 0]);

    jit.pages.superblocked.insert((7, 0x9000), ());
    jit.pages.record_page_entry(7, 0x9010);
    jit.pages.note_missed((7, 0x9000));
    assert_eq!(jit.sb_debug(7, 0x9000), 1 | (1 << 8) | (1 << 32));
    let leaders = [(1, false), (2, true), (3, false)];
    let seeds = [(1, false), (2, true), (9, false)];
    let found: Vec<u64> = (0..5).map(|w| analyze_superblock(&leaders, &seeds, w)).collect();
    assert_eq!(found, vec![3, 1, 3, 1, 1]);
}

#[test]
fn settings_are_bounded() {
    let mut p = JitPolicy::new();
    assert_eq!(p, JitPolicy::default());
    p.jit_set_enabled(0);
    assert!(!p.compiles());
    p.jit_set_enabled(1);
    assert_eq!(p.threshold, 64);
    p.jit_set_threshold(0);
    assert_eq!(p.threshold, 1);
    p.jit_set_trace_window(9);
    assert_eq!(p.trace_window, 2);
    assert!(!p.single_page(0));
    p.jit_set_trace_window(0);
    assert!(p.single_page(0));
    assert!(!p.single_page(3));
    p.jit_set_sb_spacing(4);
    assert_eq!(p.sb_min_spacing, 4_000_000);
    p.jit_set_ic_trigger(0);
    assert_eq!(p.ic_trigger, u32::MAX);
    p.jit_set_batch(1);
    p.jit_set_threshold(64);
    assert_eq!(p.batch_heat(), 32);
    p.govern_batches(64, 0);
    assert!(p.batch);
    p.govern_batches(201, 0);
    assert!(!p.batch);
    p.jit_set_batch(1);
    p.govern_batches(401, 2_000_000_000);
    assert!(p.batch);
}

#[test]
fn the_window_used_last_outlives_the_others() {
    let mut windows = TraceWindows::new();
    for page in 0..8u64 {
        windows.insert(gather_window(&[], 7, 1, 2, page * PAGE, &[]));
    }
    assert_eq!(windows.find(7, 1, 2, 0), Some(7));
    windows.insert(gather_window(&[], 7, 1, 2, 8 * PAGE, &[]));
    assert!(windows.find(7, 1, 2, 0).is_some());
    assert!(windows.find(7, 1, 2, PAGE).is_none());
}

#[test]
fn a_region_claims_every_trace_unless_a_length_keeps_it() {
    for (keep, installed, replaced) in [(0, 2, 1), (8, 1, 0), (9, 2, 1)] {
        let mut jit = JitState::new();
        let mut queue = JitQueue::new();
        let ram = marked_ram(4);
        let mut policy = JitPolicy::new();
        policy.jit_set_trace_keep_min(keep);
        land_block(&mut jit, &mut queue, &ram, 0x9010, 5);
        queue.begin_run();
        let pages = vec![(0x9000, RAM_BASE + PAGE)];
        let ticket = queue
            .submit(PendingJitKind::Region(PendingRegion {
                aspace: 7,
                lead: 0x9000,
                pages: pages.clone(),
                page_generations: vec![0],
                entries: vec![0x9010, 0x9020],
            }))
            .unwrap();
        jit.pages.claim_pending_superblock(ticket, 7, &pages);
        assert!(jit.may_complete(&queue, ticket, 6, 1));
        assert!(!jit.may_complete(&queue, ticket, 5, 1));
        let (fate, counts) = jit.complete_counted(&mut queue, &ram, &policy, ticket, 6, 1);
        assert_eq!(fate, Some(Fate::Landed));
        assert_eq!((counts.regions, counts.installed, counts.replaced), (1, installed, replaced));
        let kept = jit.code.entry(0x9010).flatten().unwrap();
        assert_eq!(kept.n != 0, replaced == 0);
    }
}

#[test]
fn lost_builds_are_counted() {
    let mut ram = marked_ram(4);
    let pages = vec![(0x9000, RAM_BASE + PAGE)];
    let region = || {
        PendingJitKind::Region(PendingRegion {
            aspace: 7,
            lead: 0x9000,
            pages: vec![(0x9000, RAM_BASE + PAGE)],
            page_generations: vec![0],
            entries: vec![0x9010],
        })
    };
    let policy = JitPolicy::new();
    let mut jit = JitState::new();
    let mut queue = JitQueue::new();
    queue.begin_run();
    let older = queue.submit(region()).unwrap();
    jit.pages.claim_pending_superblock(older, 7, &pages);
    queue.begin_run();
    let newer = queue.submit(region()).unwrap();
    jit.pages.claim_pending_superblock(newer, 7, &pages);
    ram.note_write(RAM_BASE + PAGE, 1);
    let (fate, counts) = jit.complete_counted(&mut queue, &ram, &policy, older, 5, 1);
    assert_eq!((fate, counts.stale), (Some(Fate::Superseded), true));
    let (fate, counts) = jit.complete_counted(&mut queue, &ram, &policy, newer, 6, 1);
    assert_eq!((fate, counts.stale), (Some(Fate::Stale), true));
    queue.begin_run();
    let block = pending(0x9010, 4, pages, vec![0]);
    let ticket = queue.submit(PendingJitKind::Block(block)).unwrap();
    let (fate, counts) = jit.complete_counted(&mut queue, &ram, &policy, ticket, 7, 1);
    assert_eq!((fate, counts.stale), (Some(Fate::Stale), false));
}

#[test]
fn a_disabled_compiler_compiles_nothing() {
    let mut jit = JitState::new();
    let mut policy = JitPolicy::new();
    policy.jit_set_enabled(0);
    for _ in 0..1000 {
        assert!(!jit.count_dispatch(&policy, 0x9000));
    }
    policy.jit_set_enabled(1);
    assert!(jit.count_dispatch(&policy, 0x9000));
}

#[test]
fn a_region_takes_leaders_until_it_is_full() {
    let jit = JitState::new();
    let pages = [(0x9000, RAM_BASE), (0xa000, RAM_BASE + PAGE), (0xc000, RAM_BASE + 2 * PAGE)];
    let (run, room) = jit.next_region_run(7, &pages, 0, 500).unwrap();
    assert_eq!((run.first, run.last, room), (0, 1, 12));
    assert!(jit.next_region_run(7, &pages, 2, 512).is_none());
    assert!(jit.next_region_run(7, &pages, 3, 0).is_none());
}
