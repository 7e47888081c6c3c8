//! What holds of a run of the dispatcher: what is called, what is charged, and
//! what follows.

use vstd::prelude::*;

use crate::jit::control::{Control, Event, Order, Step};
use crate::jit::run::{samples, ticked, Dispatched};

verus! {

/// The steps of a run begin in order: the machine is synchronized, then it is
/// found out how it stands, and then the code caches are brought up to date.
pub proof fn law_run_begins_in_order(c: Control, order: Order)
    requires
        c.step is Synchronize,
        c.run.remaining > 0,
    ensures
        c.after(order, Event::Done).step is Poll,
        c.after(order, Event::Done).after(
            order,
            Event::Standing { powered_off: false, pending_host_io: false },
        ).step is Maintain,
{
}

/// A run goes on only while the machine is on and there is something left of
/// what the caller granted.
pub proof fn law_run_ends_with_the_machine(
    c: Control,
    order: Order,
    powered_off: bool,
    pending_host_io: bool,
)
    requires
        c.step is Poll,
    ensures
        c.after(order, Event::Standing { powered_off, pending_host_io }).step is Finish
            <==> c.run.remaining == 0 || powered_off || pending_host_io,
        c.after(order, Event::Standing { powered_off, pending_host_io }).run == c.run,
{
}

/// A chain begins with nothing retired, and may retire what is left, or
/// 1,048,576 instructions where more is left. All of that is granted as fuel.
pub proof fn law_chain_begins_afresh(c: Control, order: Order)
    requires
        c.step is Maintain,
        c.run.remaining > 0,
    ensures
        ({
            let begun = c.after(order, Event::Maintained { issued: false });
            &&& begun.run.remaining == c.run.remaining
            &&& begun.run.chained == 0
            &&& begun.run.retired_sum == 0
            &&& c.run.remaining <= 1_048_576 ==> begun.run.round_budget == c.run.remaining
            &&& c.run.remaining > 1_048_576 ==> begun.run.round_budget == 1_048_576
            &&& begun.step == (Step::Resolve { fuel: Some(begun.run.round_budget) })
        }),
{
}

/// The code that was found at the pc is called, in the slot that its index names
/// below the two tags; where none was found, the chain is charged.
pub proof fn law_found_code_is_called(c: Control, order: Order, idx: i32)
    requires
        c.step is Resolve,
    ensures
        ({
            let found = c.after(order, Event::Resolved { idx: Some(idx) });
            let missing = c.after(order, Event::Resolved { idx: None });
            &&& 0 <= idx ==> (found.step matches Step::Call { slot, .. } && slot == idx
                & 0x1fff_ffff)
            &&& 0 <= idx < 0x2000_0000 ==> (found.step matches Step::Call { slot, .. } && slot
                == idx)
            &&& idx < 0 ==> found.step == (Step::Charge { retired: c.run.retired_sum })
            &&& missing.step == (Step::Charge { retired: c.run.retired_sum })
            &&& found.run == c.run
            &&& missing.run == c.run
        }),
{
    if 0 <= idx {
        assert(idx & !0x6000_0000i32 == idx & 0x1fff_ffffi32) by (bit_vector)
            requires
                0 <= idx,
        ;
    }
    if 0 <= idx < 0x2000_0000 {
        assert(idx & 0x1fff_ffffi32 == idx) by (bit_vector)
            requires
                0 <= idx < 0x2000_0000,
        ;
    }
}

/// What compiled code retired is added to the chain. The chain goes on while the
/// code retires something, nothing asks it to stop, and it has used up neither
/// its budget nor 1,024 dispatches; then it is charged with all that it retired.
pub proof fn law_chain_adds_up(c: Control, order: Order, retired: u64, stop: bool)
    requires
        c.step is Call,
        c.run.chained < 1024,
        c.run.retired_sum + retired <= u64::MAX,
    ensures
        ({
            let next = c.after(order, Event::Returned { retired, stop });
            let sum = c.run.retired_sum + retired;
            let on = !stop && retired > 0 && sum < c.run.round_budget && c.run.chained + 1 < 1024;
            &&& next.run.retired_sum == sum
            &&& next.run.chained == c.run.chained + 1
            &&& next.run.remaining == c.run.remaining
            &&& on <==> next.step is Resolve
            &&& !on ==> next.step == (Step::Charge { retired: next.run.retired_sum })
            &&& next.step matches Step::Resolve { fuel } ==> (fuel matches Some(f) ==> f
                == c.run.round_budget - sum)
            &&& on && (c.run.chained + 1) % 8 == 0 ==> (next.step matches Step::Resolve { fuel }
                && fuel is Some)
        }),
{
}

/// A chain is charged to what the caller granted. Behind it the run is over where
/// nothing is left; devices and interrupts are served where the chain ended on its
/// bound; and otherwise what stopped it is looked at.
pub proof fn law_chain_is_charged(c: Control, order: Order)
    requires
        c.step is Charge,
    ensures
        ({
            let next = c.after(order, Event::Charged { pending_host_io: false });
            let bound = c.run.chained == 1024 || c.run.retired_sum >= c.run.round_budget;
            &&& c.run.retired_sum < c.run.remaining ==> next.run.remaining == c.run.remaining
                - c.run.retired_sum
            &&& c.run.retired_sum >= c.run.remaining ==> next.run.remaining == 0
                && next.step is Finish
            &&& c.run.retired_sum < c.run.remaining && bound ==> next.step is ServeBoundary
                && next.boundary
            &&& c.run.retired_sum < c.run.remaining && !bound ==> next.step is Extend
                && !next.boundary
        }),
{
}

/// Behind a bound regions are grown and deferred pages built before the next
/// round; behind a break the dispatch that broke the chain is counted.
pub proof fn law_what_follows_a_chain(c: Control, order: Order)
    ensures
        c.step is ServeBoundary ==> c.after(order, Event::Done).step is Extend,
        c.step is Extend && c.boundary ==> c.after(order, Event::Done).step is BuildDeferred,
        c.step is Extend && !c.boundary ==> c.after(order, Event::Done).step is Consider,
        c.step is BuildDeferred ==> c.after(order, Event::Drained { issued: false }).step is Poll,
{
}

/// What is not compiled is interpreted: code that is not hot, that lies outside
/// RAM, that was staged, or that cannot be compiled. One slice is no more than
/// 4,096 instructions, and no more than is left.
pub proof fn law_rest_is_interpreted(c: Control, order: Order)
    ensures
        ({
            let budget = if c.run.remaining < 4096 {
                c.run.remaining
            } else {
                4096
            };
            let interprets = Step::Interpret { budget };
            &&& c.after(order, Event::Considered { hot: false }).step == interprets
            &&& c.after(order, Event::Located { in_ram: false, page_in_ram: false }).step
                == interprets
            &&& c.after(order, Event::Staged { staged: true, issued: false }).step == interprets
            &&& c.step is Blacklist ==> c.after(order, Event::Done).step == interprets
        }),
{
}

/// Hot code in RAM is compiled: it is noted on its page, its window is gathered,
/// and then a module, a trace, a batch or a block is made of it, whichever the
/// policy puts first and the code allows.
pub proof fn law_hot_code_is_compiled(
    c: Control,
    order: Order,
    page_in_ram: bool,
    heads_loop: bool,
    batch_fits: bool,
)
    ensures
        ({
            let located = c.after(order, Event::Located { in_ram: true, page_in_ram });
            let gathered = c.after(order, Event::Gathered { heads_loop, batch_fits });
            &&& c.after(order, Event::Considered { hot: true }).step is Locate
            &&& located.page_in_ram == page_in_ram
            &&& order.superblock ==> located.step is AskLoop
            &&& !order.superblock ==> located.step == (Step::NoteHot { is_loop: false })
            &&& c.after(order, Event::Looped { is_loop: heads_loop }).step == (Step::NoteHot {
                is_loop: heads_loop,
            })
            &&& c.step is NoteHot ==> c.after(order, Event::Done).step is Gather
            &&& !order.confirmed_batch && c.page_in_ram ==> gathered.step is PageModule
            &&& order.confirmed_batch && !heads_loop ==> gathered.step is Stage
            &&& order.confirmed_batch && heads_loop ==> gathered.step is Block
            &&& !order.confirmed_batch && !c.page_in_ram && order.batch && batch_fits
                ==> gathered.step is Batch
            &&& !order.confirmed_batch && !c.page_in_ram && !(order.batch && batch_fits)
                ==> gathered.step is Block
            &&& c.after(order, Event::Batched { issued: false }).step is Block
            &&& c.after(order, Event::Blocked { issued: false, may_issue: true }).step is Blacklist
            &&& c.after(order, Event::Blocked { issued: false, may_issue: false }).step is Poll
        }),
{
}

/// An interpreted slice is charged, at least one instruction. A hart that waits
/// ends the run; otherwise the host is told what there is to tell, and the run
/// goes on where there was nothing.
pub proof fn law_interpreted_slice_is_charged(c: Control, order: Order, retired: u64, idle: bool)
    requires
        c.step is Interpret,
    ensures
        ({
            let next = c.after(order, Event::Interpreted { retired, idle, pending_host_io: false });
            let charge = if retired == 0 {
                1int
            } else {
                retired as int
            };
            &&& charge < c.run.remaining ==> next.run.remaining == c.run.remaining - charge
            &&& charge >= c.run.remaining ==> next.run.remaining == 0
            &&& idle ==> next.step is Finish
            &&& !idle ==> next.step is Flush
        }),
        c.after(order, Event::Flushed { issued: false, host_event: false }).step is Poll,
        c.after(order, Event::Flushed { issued: false, host_event: true }).step is Finish,
{
}

/// One of every thirty-two exits of region functions is sampled; other code is
/// not counted.
pub proof fn law_exits_are_sampled(tick: u64, d: Dispatched)
    requires
        tick < u64::MAX,
    ensures
        d.idx & 0x4000_0000 != 0 ==> ticked(tick, d) == tick + 1,
        d.idx & 0x4000_0000 == 0 ==> ticked(tick, d) == tick && !samples(tick, d),
        d.idx & 0x4000_0000 != 0 ==> (samples(tick, d) <==> (tick + 1) % 32 == 0),
{
}

} // verus!
