//! The order of a run: what the dispatcher does next, from what it has just
//! learnt.
//!
//! A run is a sequence of rounds. Each round takes in what the guest changed,
//! dispatches a chain of compiled code, and then either serves a quantum
//! boundary or compiles and interprets what the chain stopped at. The embedding
//! performs the steps and reports how they ended.

use vstd::prelude::*;
use crate::jit::block::PageModuleIssue;
use crate::jit::policy::JitPolicy;
use crate::jit::run::{table_index, untagged, AfterChain, Run, JIT_CHAIN_CAP};

verus! {

/// What the embedding does next.
#[derive(Debug, Clone, Copy, PartialEq, Eq, Structural)]
pub enum Step {
    /// Bring the clock up to date, serve devices, and take a pending interrupt.
    Synchronize,
    /// Refresh the clock if it is due, and say how the machine stands.
    Poll,
    /// Take in a switch of the address space and writes to compiled code, and
    /// hand over the staged traces where there are enough.
    Maintain,
    /// Find the code at the pc. This much fuel is granted first, if any.
    Resolve { fuel: Option<u64> },
    /// Call the code in a slot. Its use is noted first where `touch` is set.
    Call { slot: i32, touch: bool },
    /// Add the instructions that the chain retired to the hart's count.
    Charge { retired: u64 },
    /// Bring the clock up to date, serve devices, and take a pending interrupt
    /// at a quantum boundary.
    ServeBoundary,
    /// Grow a region of this address space that asks for it, if any.
    Extend,
    /// Build the oldest deferred page of this address space, if any.
    BuildDeferred,
    /// Count the dispatch at which the chain broke.
    Consider,
    /// Find where the hot pc lies in RAM.
    Locate,
    /// Find out whether the hot pc heads a loop.
    AskLoop,
    /// Note the hot pc on its page, and build the superblock of the page where
    /// it wants one.
    NoteHot { is_loop: bool },
    /// Have the window of code around the hot pc at hand.
    Gather,
    /// Build the module of the page.
    PageModule,
    /// Translate the trace at the hot pc and stage it.
    Stage,
    /// Translate the hot pc together with its successors.
    Batch,
    /// Translate the hot pc alone.
    Block,
    /// Note that the hot pc cannot be compiled from these bytes.
    Blacklist,
    /// Interpret at most so many instructions.
    Interpret { budget: u64 },
    /// Hand console output and frames to the host.
    Flush,
    /// The run is over: hand over what is left, and return.
    Finish,
}

/// How a step ended.
#[derive(Debug, Clone, Copy, PartialEq, Eq, Structural)]
pub enum Event {
    /// It is done, and nothing is to be reported.
    Done,
    /// How the machine stands.
    Standing { powered_off: bool, pending_host_io: bool },
    /// Whether staged traces were handed over.
    Maintained { issued: bool },
    /// The line index of the code at the pc, if there is any that still maps
    /// where it did.
    Resolved { idx: Option<i32> },
    /// Compiled code returned.
    Returned { retired: u64, stop: bool },
    /// The instructions were charged.
    Charged { pending_host_io: bool },
    /// Whether anything was handed to the compiler in this run.
    Drained { issued: bool },
    /// Whether the pc is worth compiling.
    Considered { hot: bool },
    /// Whether the pc, and its whole page, lie in RAM.
    Located { in_ram: bool, page_in_ram: bool },
    /// Whether the pc heads a loop.
    Looped { is_loop: bool },
    /// The window is at hand. `heads_loop` says whether the pc heads a loop in
    /// it, `batch_fits` whether there is room for a batch of it.
    Gathered { heads_loop: bool, batch_fits: bool },
    /// What became of the page module.
    Module { issue: PageModuleIssue },
    /// Whether the trace was staged, and whether the stage was handed over.
    Staged { staged: bool, issued: bool },
    /// Whether the batch was handed over.
    Batched { issued: bool },
    /// Whether the block was handed over, and whether more may be.
    Blocked { issued: bool, may_issue: bool },
    /// The interpreter returned.
    Interpreted { retired: u64, idle: bool, pending_host_io: bool },
    /// Whether anything was handed to the compiler in this run, and whether the
    /// host was told anything.
    Flushed { issued: bool, host_event: bool },
}

/// A run in progress: its budgets, and the step that it waits for.
#[derive(Debug, Clone, Copy, PartialEq, Eq, Structural)]
pub struct Control {
    pub run: Run,
    pub step: Step,
    /// Whether the chain ended on its bound.
    pub boundary: bool,
    /// Whether the whole page of the hot pc lies in RAM.
    pub page_in_ram: bool,
    /// Whether a batch may be made of the window.
    pub batch_fits: bool,
}

/// The policy of a run, as far as its order depends on it.
#[derive(Debug, Clone, Copy, PartialEq, Eq, Structural)]
pub struct Order {
    pub superblock: bool,
    pub confirmed_batch: bool,
    pub batch: bool,
}

impl JitPolicy {
    /// What the order of a run depends on.
    pub fn order(&self) -> (o: Order)
        ensures
            o == (Order {
                superblock: self.superblock,
                confirmed_batch: self.confirmed_batch,
                batch: self.batch,
            }),
    {
        Order {
            superblock: self.superblock,
            confirmed_batch: self.confirmed_batch,
            batch: self.batch,
        }
    }
}

impl Control {
    /// Whether an event is an answer to the step that is waited for.
    pub open spec fn expects(self, event: Event) -> bool {
        match self.step {
            Step::Synchronize | Step::ServeBoundary | Step::Extend | Step::NoteHot { .. }
            | Step::Blacklist => event is Done,
            Step::Poll => event is Standing,
            Step::Maintain => event is Maintained,
            Step::Resolve { .. } => event is Resolved,
            Step::Call { .. } => event is Returned,
            Step::Charge { .. } => event is Charged,
            Step::BuildDeferred => event is Drained,
            Step::Consider => event is Considered,
            Step::Locate => event is Located,
            Step::AskLoop => event is Looped,
            Step::Gather => event is Gathered,
            Step::PageModule => event is Module,
            Step::Stage => event is Staged,
            Step::Batch => event is Batched,
            Step::Block => event is Blocked,
            Step::Interpret { .. } => event is Interpreted,
            Step::Flush => event is Flushed,
            Step::Finish => false,
        }
    }

    /// The run with another step to wait for.
    pub open spec fn at(self, step: Step) -> Control {
        Control { step, ..self }
    }

    /// The next dispatch of the chain, or the end of the chain where it has used
    /// up what it was granted.
    pub open spec fn dispatching(self) -> Control {
        if self.run.chain_continues() {
            let due = self.run.fuel_due();
            Control {
                run: self.run.fuelled(),
                step: Step::Resolve {
                    fuel: if due {
                        Some((self.run.round_budget - self.run.retired_sum) as u64)
                    } else {
                        None
                    },
                },
                ..self
            }
        } else {
            self.at(Step::Charge { retired: self.run.retired_sum })
        }
    }

    /// What follows the window: a page module, a staged trace, a batch or a
    /// block, whichever comes first in question.
    pub open spec fn compiling(self, order: Order, heads_loop: bool) -> Control {
        if !order.confirmed_batch && self.page_in_ram {
            self.at(Step::PageModule)
        } else if order.confirmed_batch && !heads_loop {
            self.at(Step::Stage)
        } else {
            self.translating(order)
        }
    }

    /// A batch where one may be made, else a block.
    pub open spec fn translating(self, order: Order) -> Control {
        if !order.confirmed_batch && order.batch && self.batch_fits {
            self.at(Step::Batch)
        } else {
            self.at(Step::Block)
        }
    }

    /// Interpretation, of no more than a slice.
    pub open spec fn interpreting(self) -> Control {
        self.at(Step::Interpret { budget: self.run.slice_size() })
    }

    /// The run after an event.
    pub open spec fn after(self, order: Order, event: Event) -> Control {
        match event {
            Event::Done => match self.step {
                Step::Synchronize => self.at(Step::Poll),
                Step::ServeBoundary => self.at(Step::Extend),
                Step::Extend => self.at(
                    if self.boundary {
                        Step::BuildDeferred
                    } else {
                        Step::Consider
                    },
                ),
                Step::NoteHot { .. } => self.at(Step::Gather),
                _ => self.interpreting(),
            },
            Event::Standing { powered_off, pending_host_io } => self.at(
                if self.run.remaining > 0 && !powered_off && !pending_host_io {
                    Step::Maintain
                } else {
                    Step::Finish
                },
            ),
            Event::Maintained { issued } => if issued {
                self.at(Step::Finish)
            } else {
                Control { run: self.run.chain_begun(), ..self }.dispatching()
            },
            Event::Resolved { idx } => match idx {
                Some(idx) if idx >= 0 => self.at(
                    Step::Call { slot: untagged(idx), touch: self.run.chained % 256 == 0 },
                ),
                _ => self.at(Step::Charge { retired: self.run.retired_sum }),
            },
            Event::Returned { retired, stop } => {
                let counted = Control { run: self.run.accounted(retired), ..self };
                if stop || retired == 0 {
                    counted.at(Step::Charge { retired: counted.run.retired_sum })
                } else {
                    counted.dispatching()
                }
            },
            Event::Charged { pending_host_io } => {
                let (run, follows) = self.run.chain_ended(pending_host_io);
                Control {
                    run,
                    step: match follows {
                        AfterChain::Yield => Step::Finish,
                        AfterChain::Boundary => Step::ServeBoundary,
                        AfterChain::Break => Step::Extend,
                    },
                    boundary: follows is Boundary,
                    ..self
                }
            },
            Event::Drained { issued } => self.at(
                if issued {
                    Step::Finish
                } else {
                    Step::Poll
                },
            ),
            Event::Considered { hot } => if hot {
                self.at(Step::Locate)
            } else {
                self.interpreting()
            },
            Event::Located { in_ram, page_in_ram } => if !in_ram {
                self.interpreting()
            } else {
                Control {
                    page_in_ram,
                    step: if order.superblock {
                        Step::AskLoop
                    } else {
                        Step::NoteHot { is_loop: false }
                    },
                    ..self
                }
            },
            Event::Looped { is_loop } => self.at(Step::NoteHot { is_loop }),
            Event::Gathered { heads_loop, batch_fits } => Control {
                batch_fits,
                ..self
            }.compiling(order, heads_loop),
            Event::Module { issue } => if issue is Issued {
                self.at(Step::Finish)
            } else {
                self.translating(order)
            },
            Event::Staged { staged, issued } => if !staged {
                self.translating(order)
            } else if issued {
                self.at(Step::Finish)
            } else {
                self.interpreting()
            },
            Event::Batched { issued } => self.at(
                if issued {
                    Step::Finish
                } else {
                    Step::Block
                },
            ),
            Event::Blocked { issued, may_issue } => self.at(
                if issued {
                    Step::Finish
                } else if may_issue {
                    Step::Blacklist
                } else {
                    Step::Poll
                },
            ),
            Event::Interpreted { retired, idle, pending_host_io } => Control {
                run: self.run.slice_charged(retired),
                step: if idle || pending_host_io {
                    Step::Finish
                } else {
                    Step::Flush
                },
                ..self
            },
            Event::Flushed { issued, host_event } => self.at(
                if issued || host_event {
                    Step::Finish
                } else {
                    Step::Poll
                },
            ),
        }
    }

    /// A chain that is in progress has retired at least one instruction with
    /// each of its dispatches, and never grants fuel that it has used up.
    pub open spec fn wf(self) -> bool {
        let run = self.run;
        match self.step {
            Step::Resolve { .. } | Step::Call { .. } => {
                &&& run.remaining > 0
                &&& run.chain_continues()
                &&& run.chained <= run.retired_sum
                &&& run.fuel_stored_at <= run.retired_sum
                &&& 0 < run.round_budget <= run.remaining
            },
            Step::Charge { retired } => {
                &&& run.remaining > 0
                &&& retired == run.retired_sum
                &&& run.chained <= JIT_CHAIN_CAP
                &&& run.chained <= run.retired_sum + 1
                &&& 0 < run.round_budget <= run.remaining
            },
            Step::Synchronize | Step::Poll | Step::Flush | Step::Finish => true,
            _ => run.remaining > 0,
        }
    }

    /// Begin a run of at most `max_insns` instructions.
    pub fn begin(max_insns: u64) -> (c: Control)
        ensures
            c.wf(),
            c == (Control {
                run: Run {
                    remaining: max_insns,
                    chained: 0,
                    retired_sum: 0,
                    round_budget: 0,
                    fuel_stored_at: 0,
                },
                step: Step::Synchronize,
                boundary: false,
                page_in_ram: false,
                batch_fits: false,
            }),
    {
        Control {
            run: Run::new(max_insns),
            step: Step::Synchronize,
            boundary: false,
            page_in_ram: false,
            batch_fits: false,
        }
    }

    fn dispatch(&mut self)
        requires
            old(self).run.remaining > 0,
            old(self).run.chained <= JIT_CHAIN_CAP,
            old(self).run.chained <= old(self).run.retired_sum,
            old(self).run.fuel_stored_at <= old(self).run.retired_sum,
            0 < old(self).run.round_budget <= old(self).run.remaining,
        ensures
            *final(self) == old(self).dispatching(),
            final(self).wf(),
    {
        if self.run.chain_goes_on() {
            let fuel: Option<u64> = self.run.grant_fuel();
            self.step = Step::Resolve { fuel };
        } else {
            self.step = Step::Charge { retired: self.run.retired_sum };
        }
    }

    fn translate(&mut self, order: Order)
        ensures
            *final(self) == old(self).translating(order),
    {
        self.step = if !order.confirmed_batch && order.batch && self.batch_fits {
            Step::Batch
        } else {
            Step::Block
        };
    }

    /// Whether an event is about what to compile.
    spec fn compiles(event: Event) -> bool {
        event is Considered || event is Located || event is Looped || event is Gathered
            || event is Module || event is Staged || event is Batched || event is Blocked
    }

    fn step_on(&mut self, order: Order, event: Event)
        requires
            old(self).wf(),
            old(self).expects(event),
            !Control::compiles(event),
        ensures
            final(self).wf(),
            *final(self) == old(self).after(order, event),
    {
        match event {
            Event::Done => {
                self.step = match self.step {
                    Step::Synchronize => Step::Poll,
                    Step::ServeBoundary => Step::Extend,
                    Step::Extend => if self.boundary {
                        Step::BuildDeferred
                    } else {
                        Step::Consider
                    },
                    Step::NoteHot { .. } => Step::Gather,
                    _ => Step::Interpret { budget: self.run.slice() },
                };
            },
            Event::Standing { powered_off, pending_host_io } => {
                self.step = if self.run.goes_on(powered_off, pending_host_io) {
                    Step::Maintain
                } else {
                    Step::Finish
                };
            },
            Event::Maintained { issued } => {
                if issued {
                    self.step = Step::Finish;
                } else {
                    self.run.begin_chain();
                    self.dispatch();
                }
            },
            Event::Resolved { idx } => {
                self.step = match idx {
                    Some(idx) if idx >= 0 => Step::Call {
                        slot: table_index(idx),
                        touch: self.run.chained % 256 == 0,
                    },
                    _ => Step::Charge { retired: self.run.retired_sum },
                };
            },
            Event::Returned { retired, stop } => {
                if self.run.account(retired, stop) {
                    self.step = Step::Charge { retired: self.run.retired_sum };
                } else {
                    self.dispatch();
                }
            },
            Event::Charged { pending_host_io } => {
                let follows: AfterChain = self.run.end_chain(pending_host_io);
                self.boundary = match follows {
                    AfterChain::Boundary => true,
                    _ => false,
                };
                self.step = match follows {
                    AfterChain::Yield => Step::Finish,
                    AfterChain::Boundary => Step::ServeBoundary,
                    AfterChain::Break => Step::Extend,
                };
            },
            Event::Drained { issued } => {
                self.step = if issued {
                    Step::Finish
                } else {
                    Step::Poll
                };
            },
            Event::Interpreted { retired, idle, pending_host_io } => {
                self.step = if self.run.end_slice(retired, idle, pending_host_io) {
                    Step::Flush
                } else {
                    Step::Finish
                };
            },
            Event::Flushed { issued, host_event } => {
                self.step = if issued || host_event {
                    Step::Finish
                } else {
                    Step::Poll
                };
            },
            _ => {},
        }
    }

    fn step_compiling(&mut self, order: Order, event: Event)
        requires
            old(self).wf(),
            old(self).expects(event),
            Control::compiles(event),
        ensures
            final(self).wf(),
            *final(self) == old(self).after(order, event),
    {
        match event {
            Event::Considered { hot } => {
                self.step = if hot {
                    Step::Locate
                } else {
                    Step::Interpret { budget: self.run.slice() }
                };
            },
            Event::Located { in_ram, page_in_ram } => {
                if !in_ram {
                    self.step = Step::Interpret { budget: self.run.slice() };
                } else {
                    self.page_in_ram = page_in_ram;
                    self.step = if order.superblock {
                        Step::AskLoop
                    } else {
                        Step::NoteHot { is_loop: false }
                    };
                }
            },
            Event::Looped { is_loop } => {
                self.step = Step::NoteHot { is_loop };
            },
            Event::Gathered { heads_loop, batch_fits } => {
                self.batch_fits = batch_fits;
                if !order.confirmed_batch && self.page_in_ram {
                    self.step = Step::PageModule;
                } else if order.confirmed_batch && !heads_loop {
                    self.step = Step::Stage;
                } else {
                    self.translate(order);
                }
            },
            Event::Module { issue } => {
                match issue {
                    PageModuleIssue::Issued => {
                        self.step = Step::Finish;
                    },
                    _ => {
                        self.translate(order);
                    },
                }
            },
            Event::Staged { staged, issued } => {
                if !staged {
                    self.translate(order);
                } else if issued {
                    self.step = Step::Finish;
                } else {
                    self.step = Step::Interpret { budget: self.run.slice() };
                }
            },
            Event::Batched { issued } => {
                self.step = if issued {
                    Step::Finish
                } else {
                    Step::Block
                };
            },
            Event::Blocked { issued, may_issue } => {
                self.step = if issued {
                    Step::Finish
                } else if may_issue {
                    Step::Blacklist
                } else {
                    Step::Poll
                };
            },
            _ => {},
        }
    }

    /// Take in how the step ended that was waited for, and say what follows.
    pub fn step(&mut self, order: Order, event: Event) -> (step: Step)
        requires
            old(self).wf(),
            old(self).expects(event),
        ensures
            final(self).wf(),
            *final(self) == old(self).after(order, event),
            step == final(self).step,
    {
        match event {
            Event::Considered { .. } | Event::Located { .. } | Event::Looped { .. }
            | Event::Gathered { .. } | Event::Module { .. } | Event::Staged { .. }
            | Event::Batched { .. } | Event::Blocked { .. } => self.step_compiling(order, event),
            _ => self.step_on(order, event),
        }
        self.step
    }
}

// ---- laws ----------------------------------------------------------------

/// A run yields to the host as soon as the host owes it something: whenever a
/// step finds that, the run is over.
pub proof fn law_host_io_ends_the_run(c: Control, order: Order, event: Event)
    requires
        c.wf(),
        c.expects(event),
        match event {
            Event::Standing { pending_host_io, .. } => pending_host_io,
            Event::Charged { pending_host_io } => pending_host_io,
            Event::Interpreted { pending_host_io, .. } => pending_host_io,
            _ => false,
        },
    ensures
        c.after(order, event).step is Finish,
{
}

/// A run yields to the host as soon as it has handed anything over that the host
/// compiles: whenever a step reports that, the run is over. The host lands
/// finished code only between runs.
pub proof fn law_handing_over_ends_the_run(c: Control, order: Order, event: Event)
    requires
        c.wf(),
        c.expects(event),
        match event {
            Event::Maintained { issued } => issued,
            Event::Drained { issued } => issued,
            Event::Module { issue } => issue is Issued,
            Event::Staged { staged, issued } => staged && issued,
            Event::Batched { issued } => issued,
            Event::Blocked { issued, .. } => issued,
            Event::Flushed { issued, .. } => issued,
            _ => false,
        },
    ensures
        c.after(order, event).step is Finish,
{
}

/// No step grants more than the caller left, and none but a charge changes what
/// is left.
pub proof fn law_only_charges_spend(c: Control, order: Order, event: Event)
    requires
        c.wf(),
        c.expects(event),
    ensures
        c.after(order, event).run.remaining <= c.run.remaining,
        !(event is Charged) && !(event is Interpreted) ==> c.after(order, event).run.remaining
            == c.run.remaining,
        c.after(order, event).step matches Step::Interpret { budget } ==> 0 < budget
            <= c.run.remaining,
        c.after(order, event).step matches Step::Resolve { fuel } ==> (fuel matches Some(f) ==> 0 < f
            <= c.run.remaining),
{
}

/// Every round makes progress: a quantum boundary and an interpreter slice each
/// use up part of what is left, and the only other way into another round is a
/// compiler that takes no more, which then is not asked again.
pub proof fn law_rounds_make_progress(c: Control, order: Order, event: Event)
    requires
        c.wf(),
        c.expects(event),
    ensures
        c.after(order, event).step is ServeBoundary ==> c.after(order, event).run.remaining
            < c.run.remaining,
        c.after(order, event).step is Flush ==> c.after(order, event).run.remaining
            < c.run.remaining,
        c.after(order, event).step is Poll ==> event is Drained || event is Flushed
            || event == (Event::Blocked { issued: false, may_issue: false }) || c.step
            is Synchronize,
{
}

} // verus!
