//! The order of a run.

use rv64_system::jit::block::PageModuleIssue;
use rv64_system::jit::builds::BuildPacing;
use rv64_system::jit::control::{Control, Event, Order, Step};
use rv64_system::jit::policy::JitPolicy;
use rv64_system::jit::queue::JitQueue;
use rv64_system::jit::run::{tiers_up, Dispatched, ExitTick, Run};
use rv64_system::jit::state::JitState;

fn order() -> Order {
    Order { superblock: true, confirmed_batch: false, batch: true }
}

fn standing() -> Event {
    Event::Standing { powered_off: false, pending_host_io: false }
}

/// A run that has just looked for the first code of its first chain.
fn resolving(max: u64) -> Control {
    let mut control = Control::begin(max);
    assert_eq!(control.step(order(), Event::Done), Step::Poll);
    assert_eq!(control.step(order(), standing()), Step::Maintain);
    let fuel = max.min(1 << 20);
    assert_eq!(
        control.step(order(), Event::Maintained { issued: false }),
        Step::Resolve { fuel: Some(fuel) },
    );
    control
}

#[test]
fn a_chain_runs_to_its_quantum_and_serves_the_boundary() {
    let mut control = resolving(3 << 20);
    assert_eq!(
        control.step(order(), Event::Resolved { idx: Some(0x4000_0007) }),
        Step::Call { slot: 7, touch: true },
    );
    assert_eq!(
        control.step(order(), Event::Returned { retired: 1 << 20, stop: false }),
        Step::Charge { retired: 1 << 20 },
    );
    assert_eq!(
        control.step(order(), Event::Charged { pending_host_io: false }),
        Step::ServeBoundary,
    );
    assert_eq!(control.run.remaining, 2 << 20);
    assert_eq!(control.step(order(), Event::Done), Step::Extend);
    assert_eq!(control.step(order(), Event::Done), Step::BuildDeferred);
    assert_eq!(control.step(order(), Event::Drained { issued: false }), Step::Poll);
}

#[test]
fn a_broken_chain_compiles_what_it_stopped_at() {
    let mut control = resolving(10_000);
    assert_eq!(
        control.step(order(), Event::Resolved { idx: None }),
        Step::Charge { retired: 0 },
    );
    assert_eq!(control.step(order(), Event::Charged { pending_host_io: false }), Step::Extend);
    assert_eq!(control.step(order(), Event::Done), Step::Consider);
    assert_eq!(control.step(order(), Event::Considered { hot: true }), Step::Locate);
    assert_eq!(
        control.step(order(), Event::Located { in_ram: true, page_in_ram: true }),
        Step::AskLoop,
    );
    assert_eq!(
        control.step(order(), Event::Looped { is_loop: true }),
        Step::NoteHot { is_loop: true },
    );
    assert_eq!(control.step(order(), Event::Done), Step::Gather);
    assert_eq!(
        control.step(order(), Event::Gathered { heads_loop: false, batch_fits: true }),
        Step::PageModule,
    );
    assert_eq!(
        control.step(order(), Event::Module { issue: PageModuleIssue::Awaiting }),
        Step::Batch,
    );
    assert_eq!(control.step(order(), Event::Batched { issued: false }), Step::Block);
    assert_eq!(
        control.step(order(), Event::Blocked { issued: false, may_issue: true }),
        Step::Blacklist,
    );
    assert_eq!(control.step(order(), Event::Done), Step::Interpret { budget: 4096 });
    let interpreted = Event::Interpreted { retired: 100, idle: false, pending_host_io: false };
    assert_eq!(control.step(order(), interpreted), Step::Flush);
    assert_eq!(control.run.remaining, 9_900);
    assert_eq!(
        control.step(order(), Event::Flushed { issued: false, host_event: false }),
        Step::Poll,
    );
}

#[test]
fn confirmed_traces_are_staged_unless_they_head_a_loop() {
    let confirmed = Order { superblock: false, confirmed_batch: true, batch: true };
    let mut control = resolving(10_000);
    control.step(confirmed, Event::Resolved { idx: Some(-1) });
    control.step(confirmed, Event::Charged { pending_host_io: false });
    control.step(confirmed, Event::Done);
    control.step(confirmed, Event::Considered { hot: true });
    assert_eq!(
        control.step(confirmed, Event::Located { in_ram: true, page_in_ram: true }),
        Step::NoteHot { is_loop: false },
    );
    assert_eq!(control.step(confirmed, Event::Done), Step::Gather);
    let mut looping = control;
    assert_eq!(
        control.step(confirmed, Event::Gathered { heads_loop: false, batch_fits: true }),
        Step::Stage,
    );
    assert_eq!(
        looping.step(confirmed, Event::Gathered { heads_loop: true, batch_fits: true }),
        Step::Block,
    );
    assert_eq!(
        control.step(confirmed, Event::Staged { staged: true, issued: false }),
        Step::Interpret { budget: 4096 },
    );
}

#[test]
fn a_run_begins_with_nothing_used() {
    let control = Control::begin(9);
    assert_eq!(control.run, Run::new(9));
    assert_eq!(control.step, Step::Synchronize);
    assert!(!control.boundary && !control.page_in_ram && !control.batch_fits);
}

#[test]
fn handing_over_and_host_io_end_the_run() {
    let mut control = Control::begin(5);
    control.step(order(), Event::Done);
    let pending = Event::Standing { powered_off: false, pending_host_io: true };
    assert_eq!(control.step(order(), pending), Step::Finish);
    let mut control = Control::begin(5);
    control.step(order(), Event::Done);
    control.step(order(), standing());
    assert_eq!(control.step(order(), Event::Maintained { issued: true }), Step::Finish);
    let mut control = Control::begin(0);
    control.step(order(), Event::Done);
    assert_eq!(control.step(order(), standing()), Step::Finish);
}

#[test]
fn a_full_queue_does_not_condemn_the_code() {
    let mut control = resolving(10_000);
    control.step(order(), Event::Resolved { idx: None });
    control.step(order(), Event::Charged { pending_host_io: false });
    control.step(order(), Event::Done);
    control.step(order(), Event::Considered { hot: true });
    control.step(order(), Event::Located { in_ram: true, page_in_ram: false });
    control.step(order(), Event::Looped { is_loop: false });
    control.step(order(), Event::Done);
    assert_eq!(
        control.step(order(), Event::Gathered { heads_loop: false, batch_fits: false }),
        Step::Block,
    );
    assert_eq!(
        control.step(order(), Event::Blocked { issued: false, may_issue: false }),
        Step::Poll,
    );
}

#[test]
fn heat_is_counted_only_where_code_may_be_compiled() {
    let mut jit = JitState::new();
    let mut queue = JitQueue::new();
    let mut policy = JitPolicy::new();
    policy.jit_set_threshold(2);
    queue.begin_run();
    assert!(tiers_up(&policy, &queue));
    assert!(!jit.consider(&policy, &queue, 7, 0x9000));
    assert!(jit.consider(&policy, &queue, 7, 0x9000));
    queue.note_capacity();
    assert!(!jit.consider(&policy, &queue, 7, 0x9000));
    assert!(!tiers_up(&policy, &queue));
}

#[test]
fn a_zero_dispatch_is_learnt_as_a_bail() {
    let mut jit = JitState::new();
    let policy = JitPolicy::new();
    let mut tick = ExitTick { tick: 0 };
    let dispatched = Dispatched { pc: 4, idx: 3, next: 4, retired: 0, fp_gate_open: true };
    let (stop, exit) = jit.learn(&policy, &mut tick, dispatched);
    assert!(!stop);
    assert!(exit.is_none());
    assert_eq!(tick.tick, 0);
}

#[test]
fn looks_for_extensions_are_spaced() {
    let jit = JitState::new();
    let queue = JitQueue::new();
    let mut pacing = BuildPacing { last_build: 100, next_look: 0 };
    assert!(!pacing.spaced(149, 50));
    assert!(pacing.spaced(150, 50));
    pacing.look_later(u64::MAX, 2);
    assert_eq!(pacing.next_look, 1);
    assert!(!jit.extension_due(&queue, &pacing, 50, 1000));
    assert!(!jit.deferred_due(&queue, &pacing, 50, 1000));
}
