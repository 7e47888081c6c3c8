//! Bookkeeping of compiled code.

use std::collections::HashSet;

use rv64_system::jit::block::{
    JitBlock, LivePageModule, PageModuleDecision, PageModuleFinish, PageModuleSource,
    PageModuleState, PendingBatch, PendingBlock,
};
use rv64_system::jit::index::PageMap;
use rv64_system::jit::landing::block_should_replace_region;
use rv64_system::jit::pages::BuildRecord;
use rv64_system::jit::policy::JIT_ON_THRESHOLD;
use rv64_system::jit::run::{account_compiled_dispatch, RunGuard};
use rv64_system::jit::state::{JitState, PAGE_IDX_BIT};

fn page_source(physical_page: u64) -> PageModuleSource {
    PageModuleSource {
        physical_page,
        generation: 3,
        tlb_fill: false,
    }
}

fn compiled_block(idx: i32, pa: u64) -> JitBlock {
    JitBlock {
        fp: false,
        idx,
        n: 4,
        mix: [0; 5],
        mem: [0; 10],
        control: [0; 3],
        alu: [0; 5],
        pa,
        last_used: 0,
    }
}

fn pending_page_batch(key: (u64, u64), pc: u64) -> PendingBatch {
    PendingBatch {
        cell: 0,
        sequence: 0,
        members: vec![PendingBlock {
            aspace: key.0,
            pc,
            block: compiled_block(-1, 0x8000_0000 + (pc & 0xfff)),
            pages: vec![(key.1, 0x8000_0000)],
            page_generations: vec![3],
            seeds: Vec::new(),
            trace_pcs: Vec::new(),
            missed_superblock: false,
        }],
        page_module: Some(key),
    }
}

fn page_set(keys: &[(u64, u64)]) -> PageMap<()> {
    let mut set = PageMap::new();
    for &key in keys {
        set.insert(key, ());
    }
    set
}

#[test]
fn latest_pending_superblock_owns_overlapping_page_claims() {
    let mut jit = JitState::new();
    let a = (0x1000, 0x8000_1000);
    let b = (0x2000, 0x8000_2000);
    let c = (0x3000, 0x8000_3000);

    jit.pages.claim_pending_superblock(1, 7, &[a, b]);
    jit.pages.claim_pending_superblock(2, 7, &[b, c]);

    assert!(!jit.pages.pending_superblock_is_current(1, 7, &[a, b]));
    assert!(jit.pages.pending_superblock_is_current(2, 7, &[b, c]));
    assert_eq!(jit.tracked_page_keys_for_physical(1), vec![(7, a.0)]);
    assert_eq!(jit.tracked_page_keys_for_physical(2), vec![(7, b.0)]);
    jit.pages.finish_pending_superblock(1, 7, &[a, b], false);
    assert!(!jit.pages.superblocked.contains_key(&(7, a.0)));
    assert!(jit.pages.superblocked.contains_key(&(7, b.0)));

    jit.pages.finish_pending_superblock(2, 7, &[b, c], false);
    assert!(!jit.pages.superblocked.contains_key(&(7, b.0)));
    assert!(!jit.pages.superblocked.contains_key(&(7, c.0)));

    jit.pages.superblocked.insert((7, a.0), ());
    jit.pages.claim_pending_superblock(3, 7, &[a]);
    jit.pages.claim_pending_superblock(4, 7, &[a]);
    jit.pages.finish_pending_superblock(4, 7, &[a], false);
    assert!(jit.pages.superblocked.contains_key(&(7, a.0)));
}

#[test]
fn failed_page_module_reopens_only_for_a_new_source() {
    let mut jit = JitState::new();
    let key = (7, 0x4000);
    let source = page_source(1);
    jit.code
        .page_modules
        .insert(key, PageModuleState::Attempted(source));

    assert_eq!(
        jit.code.page_module_decision(key, source),
        PageModuleDecision::Individual
    );
    let changed = PageModuleSource {
        generation: source.generation + 1,
        ..source
    };
    assert_eq!(
        jit.code.page_module_decision(key, changed),
        PageModuleDecision::Build(None)
    );
}

#[test]
fn pending_page_module_defers_same_page_individual_work() {
    let mut jit = JitState::new();
    let key = (7, 0x4000);
    let source = page_source(1);
    jit.code.page_modules.insert(
        key,
        PageModuleState::Pending {
            source,
            ticket: 9,
            prior: None,
        },
    );

    assert_eq!(
        jit.code.page_module_decision(key, source),
        PageModuleDecision::Awaiting
    );
}

#[test]
fn page_module_priority_is_scoped_to_address_space() {
    let mut jit = JitState::new();
    let pc = 0x4120;
    let key = (7, 0x4000);
    let owner = 21_u64;
    let slot = 21;
    jit.code.owner_slots.insert(owner, vec![slot]);
    jit.code.slot_owner.insert(slot, owner);
    jit.code.page_module_owner.insert(owner, key);
    jit.code.page_modules.insert(
        key,
        PageModuleState::Live(LivePageModule {
            source: page_source(1),
            owner,
            entries: vec![pc],
        }),
    );
    jit.code
        .cache
        .insert(pc, Some(compiled_block(slot, 0x8000_1120)));

    assert!(jit.code.page_module_owns_cached_entry(7, pc));
    assert!(!jit.code.page_module_owns_cached_entry(8, pc));
}

#[test]
fn failed_page_replacement_restores_the_live_owner() {
    let mut jit = JitState::new();
    let key = (7, 0x4000);
    let source = page_source(1);
    let prior = LivePageModule {
        source,
        owner: 21,
        entries: vec![0x4000, 0x4004],
    };
    jit.code.page_modules.insert(
        key,
        PageModuleState::Pending {
            source,
            ticket: 9,
            prior: Some(prior),
        },
    );
    let batch = pending_page_batch(key, 0x4010);

    assert_eq!(
        jit.code
            .finish_pending_page_module(8, &batch, PageModuleFinish::Failed),
        None
    );
    assert!(matches!(
        jit.code.page_modules.get(&key),
        Some(PageModuleState::Pending { .. })
    ));
    assert_eq!(
        jit.code
            .finish_pending_page_module(9, &batch, PageModuleFinish::Failed),
        None
    );
    assert!(matches!(
        jit.code.page_modules.get(&key),
        Some(PageModuleState::Live(LivePageModule { owner: 21, .. }))
    ));
}

#[test]
fn successful_page_replacement_transfers_lifecycle_ownership() {
    let mut jit = JitState::new();
    let key = (7, 0x4000);
    let source = page_source(1);
    jit.code.page_modules.insert(
        key,
        PageModuleState::Pending {
            source,
            ticket: 9,
            prior: Some(LivePageModule {
                source,
                owner: 21,
                entries: vec![0x4000],
            }),
        },
    );
    let batch = pending_page_batch(key, 0x4010);

    assert_eq!(
        jit.code
            .finish_pending_page_module(9, &batch, PageModuleFinish::Landed(31)),
        Some(21)
    );
    assert!(matches!(
        jit.code.page_modules.get(&key),
        Some(PageModuleState::Live(LivePageModule { owner: 31, .. }))
    ));
    assert_eq!(jit.code.page_module_owner.get(&31), Some(&key));
}

#[test]
fn cancelled_page_module_can_retry_the_same_source() {
    let mut jit = JitState::new();
    let key = (7, 0x4000);
    let source = page_source(1);
    jit.code.page_modules.insert(
        key,
        PageModuleState::Pending {
            source,
            ticket: 9,
            prior: None,
        },
    );
    let batch = pending_page_batch(key, 0x4010);

    assert_eq!(
        jit.code
            .finish_pending_page_module(9, &batch, PageModuleFinish::Cancelled),
        None
    );
    assert!(!jit.code.page_modules.contains_key(&key));
    assert_eq!(
        jit.code.page_module_decision(key, source),
        PageModuleDecision::Build(None)
    );
}

#[test]
fn dirty_pending_pages_do_not_invalidate_another_address_space() {
    let mut jit = JitState::new();
    let virtual_page = 0x1000;
    let a = (7, virtual_page);
    let b = (8, virtual_page);

    for (ticket, key, physical) in [(1, a, 0x8000_1000), (2, b, 0x8000_2000)] {
        jit.pages.page_entries.insert(key, vec![virtual_page]);
        jit.pages.superblocked.insert(key, ());
        jit.pages
            .claim_pending_superblock(ticket, key.0, &[(key.1, physical)]);
        jit.pages.sb_gen.insert(
            key,
            BuildRecord {
                entries: 1,
                compiles: 0,
                when: physical,
            },
        );
    }

    let exact = page_set(&jit.tracked_page_keys_for_physical(1));
    jit.invalidate_superblock_state(&exact, &Default::default());

    assert!(!jit.pages.page_entries.contains_key(&a));
    assert!(!jit.pages.superblocked.contains_key(&a));
    assert!(!jit.pages.pending_superblocks.contains_key(&a));
    assert!(!jit.pages.sb_gen.contains_key(&a));
    assert!(jit.pages.page_entries.contains_key(&b));
    assert!(jit.pages.superblocked.contains_key(&b));
    assert!(jit.pages.pending_superblocks.contains_key(&b));
    assert!(jit.pages.sb_gen.contains_key(&b));

    jit.invalidate_superblock_state(&page_set(&[]), &HashSet::from([virtual_page]));
    assert!(!jit.pages.page_entries.contains_key(&b));
    assert!(!jit.pages.superblocked.contains_key(&b));
    assert!(!jit.pages.pending_superblocks.contains_key(&b));
    assert!(!jit.pages.sb_gen.contains_key(&b));
}

#[test]
fn dirty_page_module_invalidation_is_physical_and_owner_atomic() {
    let mut jit = JitState::new();
    let virtual_page = 0x4000;
    let a = (7, virtual_page);
    let b = (8, virtual_page);
    let pc_a = virtual_page + 0x120;
    let pc_b = virtual_page + 0x220;

    for (key, owner, physical, pc) in [(a, 21_u64, 1, pc_a), (b, 31, 2, pc_b)] {
        let slot = owner as i32;
        jit.code.owner_slots.insert(owner, vec![slot]);
        jit.code.slot_owner.insert(slot, owner);
        jit.code.page_module_owner.insert(owner, key);
        jit.code.page_modules.insert(
            key,
            PageModuleState::Live(LivePageModule {
                source: page_source(physical),
                owner,
                entries: vec![pc],
            }),
        );
        jit.pages.page_hot_entries.insert(key, vec![pc]);
        jit.cache_insert(
            pc,
            Some(compiled_block(
                slot,
                0x8000_0000 + (physical << 12) + (pc & 0xfff),
            )),
        );
    }

    let exact = page_set(&jit.tracked_page_keys_for_physical(1));
    jit.invalidate_superblock_state(&exact, &HashSet::from([virtual_page]));

    assert!(!jit.code.page_modules.contains_key(&a));
    assert!(!jit.code.page_module_owner.contains_key(&21));
    assert!(!jit.code.slot_owner.contains_key(&21));
    assert!(!jit.code.cache.contains_key(&pc_a));

    assert!(jit.code.page_modules.contains_key(&b));
    assert_eq!(jit.code.page_module_owner.get(&31), Some(&b));
    assert_eq!(jit.code.slot_owner.get(&31), Some(&31));
    assert!(jit.code.cache.contains_key(&pc_b));
    assert!(jit.pages.page_hot_entries.contains_key(&b));
    assert_eq!(
        jit.tagged_dispatch_index(compiled_block(31, 0x8000_2220)) & PAGE_IDX_BIT,
        PAGE_IDX_BIT
    );
}

#[test]
fn cold_owner_eviction_retires_the_complete_owner() {
    let mut jit = JitState::new();
    let hot_owner = 21_u64;
    let cold_owner = 31_u64;
    let hot_pc = 0x4120;
    let cold_pcs = [0x8120, 0x9120];

    for (owner, slots) in [(hot_owner, vec![21]), (cold_owner, vec![31, 32])] {
        jit.code.owner_slots.insert(owner, slots.clone());
        for slot in slots {
            jit.code.slot_owner.insert(slot, owner);
        }
    }
    jit.cache_insert(hot_pc, Some(compiled_block(21, 0x8000_1120)));
    jit.cache_insert(cold_pcs[0], Some(compiled_block(31, 0x8000_2120)));
    jit.cache_insert(cold_pcs[1], Some(compiled_block(32, 0x8000_3120)));
    for pc in cold_pcs {
        jit.heat.promote(pc, JIT_ON_THRESHOLD);
        for _ in 0..JIT_ON_THRESHOLD {
            jit.heat.enter(pc);
        }
        assert_eq!(u32::from(jit.heat.count(pc)), JIT_ON_THRESHOLD);
    }

    let stamp = jit.code.next_use_stamp();
    jit.code.update_owner_recency(hot_owner, stamp);
    let stamp = jit.code.next_use_stamp();
    jit.code.update_owner_recency(cold_owner, stamp);
    jit.touch(hot_pc);

    assert_eq!(jit.evict_cold_owner(), 2);
    assert!(jit.code.cache.contains_key(&hot_pc));
    assert!(cold_pcs.iter().all(|pc| !jit.code.cache.contains_key(pc)));
    assert!(!jit.code.owner_slots.contains_key(&cold_owner));
    assert!(!jit.code.owner_entries.contains_key(&cold_owner));
    assert!(!jit.code.owner_recency.contains_key(&cold_owner));
    assert_eq!(jit.code.owner_recency.coldest(), Some(hot_owner));
    assert!(jit.code.slot_owner.values().all(|&owner| owner != cold_owner));
    assert!(jit.code.slot_refs.keys().all(|slot| ![31, 32].contains(slot)));
    for pc in cold_pcs {
        assert!(!jit.heat.hot.contains_key(&pc));
        assert_eq!(jit.heat.count(pc), 0);
    }
    assert_eq!(jit.evictions.owners, 1);
    assert_eq!(jit.evictions.slots, 2);
    assert_eq!(jit.evictions.cooled_entries, 2);

    jit.retire_owner(hot_owner, false);
}

#[test]
fn reused_table_slot_does_not_merge_distinct_owners() {
    let mut jit = JitState::new();
    let first_owner = 100_u64;
    let second_owner = 101_u64;
    let first_pc = 0x10_120;
    let second_pc = 0x20_120;

    jit.code.track_owner(first_owner, &[101, 102]).unwrap();
    jit.cache_insert(first_pc, Some(compiled_block(102, 0x8001_0120)));
    jit.code.retire_unreferenced_slots(first_owner);
    assert!(!jit.code.slot_owner.contains_key(&101));
    assert_eq!(jit.code.slot_owner.get(&102), Some(&first_owner));

    jit.code.track_owner(second_owner, &[101]).unwrap();
    jit.cache_insert(second_pc, Some(compiled_block(101, 0x8002_0120)));
    assert_eq!(jit.code.owner_entries.get(&first_owner), Some(&vec![first_pc]));
    assert_eq!(jit.code.owner_entries.get(&second_owner), Some(&vec![second_pc]));

    jit.retire_owner(first_owner, false);
    assert!(!jit.code.cache.contains_key(&first_pc));
    assert!(jit.code.cache.contains_key(&second_pc));
    assert_eq!(jit.code.slot_owner.get(&101), Some(&second_owner));
    jit.retire_owner(second_owner, false);
}

#[test]
fn one_slot_owner_retires_all_shared_entries() {
    let mut jit = JitState::new();
    let owner = 200_u64;
    let entries = [0x30_120, 0x30_220, 0x30_320];

    jit.code.track_owner(owner, &[201]).unwrap();
    for (offset, pc) in entries.into_iter().enumerate() {
        jit.cache_insert(
            pc,
            Some(compiled_block(201, 0x8003_0120 + offset as u64 * 0x100)),
        );
    }

    assert_eq!(jit.retire_owner(owner, false), 1);
    assert!(entries.iter().all(|pc| !jit.code.cache.contains_key(pc)));
    assert!(!jit.code.slot_owner.contains_key(&201));
    assert!(!jit.code.owner_slots.contains_key(&owner));
    assert!(!jit.code.owner_entries.contains_key(&owner));
    assert!(!jit.code.owner_recency.contains_key(&owner));
}

#[test]
fn internal_jit_callbacks_reject_forged_context_handles() {
    let mut guard = RunGuard::new();
    assert!(!guard.accepts(0));
    assert!(!guard.accepts(1));
    assert!(!guard.accepts(0x1234));
    assert!(!guard.may_chain(0x1234, false, 0, 100));

    // Only the one handle is good, and only during a run.
    assert!(guard.begin());
    assert!(!guard.begin());
    assert!(guard.accepts(1));
    assert!(!guard.accepts(0x1234));
    assert!(guard.may_chain(1, false, 0, 100));
    assert!(!guard.may_chain(1, true, 0, 100));
    assert!(!guard.may_chain(1, false, 100, 100));
    guard.end();
    assert!(!guard.accepts(1));
}

#[test]
fn pending_host_io_still_accounts_compiled_dispatch() {
    let mut retired_sum = 5;
    let mut chained = 2;

    assert!(account_compiled_dispatch(
        &mut retired_sum,
        &mut chained,
        7,
        true,
    ));
    assert_eq!(retired_sum, 12);
    assert_eq!(chained, 3);
}

#[test]
fn async_trace_region_priority_is_completion_order_independent() {
    let region = Some(JitBlock {
        fp: false,
        idx: 10,
        n: 0,
        mix: [0; 5],
        mem: [0; 10],
        control: [0; 3],
        alu: [0; 5],
        pa: 0x8000_0000,
        last_used: 0,
    });
    let short = JitBlock {
        fp: false,
        idx: -1,
        n: 15,
        mix: [0; 5],
        mem: [0; 10],
        control: [0; 3],
        alu: [0; 5],
        pa: 0x8000_0000,
        last_used: 0,
    };
    let long = JitBlock { n: 16, ..short };
    let fp = JitBlock { fp: true, ..long };

    assert!(!block_should_replace_region(Some(region), short, 16));
    assert!(block_should_replace_region(Some(region), long, 16));
    assert!(!block_should_replace_region(Some(region), fp, 16));
    assert!(block_should_replace_region(None, short, 16));
}
