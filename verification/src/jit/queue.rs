//! Compilations in flight: what may be handed to the host, and under which
//! ticket it comes back.

use vstd::prelude::*;
use crate::jit::block::{PendingBatch, PendingJit, PendingJitKind};
use crate::jit::table::{bump, bumped};

verus! {

/// Keep a small discovery window. The host limits active compiler jobs
/// separately; this queue hides scheduling latency without allowing a
/// compile storm to starve the guest.
pub const MAX_PENDING_JIT: usize = 4;

pub const MAX_JIT_ISSUES_PER_RUN: u32 = 1;

/// Cells that batches read the base of their slots from.
pub const BATCH_CELLS: usize = 4096;

/// The compilations in flight.
pub struct JitQueue {
    pub pending: Vec<PendingJit>,
    pub next_ticket: u64,
    pub issues_this_run: u32,
    /// The host's code store is full: nothing is compiled until the current
    /// run returns, when the host can reuse slots.
    pub capacity_blocked: bool,
    pub capacity_rejections: u64,
    /// Bumped by every boot: results from a previous machine must be dropped.
    pub boot_gen: u64,
    next_cell: usize,
    next_sequence: u64,
    cell_sequence: Vec<u64>,
    base_pool: Vec<u32>,
}

/// The state of a [`JitQueue`].
#[verifier::ext_equal]
pub struct QueueView {
    pub pending: Seq<PendingJit>,
    pub next_ticket: u64,
    pub issues_this_run: u32,
    pub capacity_blocked: bool,
    pub capacity_rejections: u64,
    pub boot_gen: u64,
    pub next_cell: nat,
    pub next_sequence: u64,
    /// The batch that each cell belongs to.
    pub cell_sequence: Seq<u64>,
    /// What each cell holds.
    pub base_pool: Seq<u32>,
}

impl View for JitQueue {
    type V = QueueView;

    closed spec fn view(&self) -> QueueView {
        QueueView {
            pending: self.pending@,
            next_ticket: self.next_ticket,
            issues_this_run: self.issues_this_run,
            capacity_blocked: self.capacity_blocked,
            capacity_rejections: self.capacity_rejections,
            boot_gen: self.boot_gen,
            next_cell: self.next_cell as nat,
            next_sequence: self.next_sequence,
            cell_sequence: self.cell_sequence@,
            base_pool: self.base_pool@,
        }
    }
}

/// Whether a compilation is one of the code at `pc`. A region deliberately is
/// not: existing code remains fast while a region compiles.
pub open spec fn compiles_pc(kind: PendingJitKind, aspace: u64, pc: u64) -> bool {
    match kind {
        PendingJitKind::Block(block) => block.aspace == aspace && block.pc == pc,
        PendingJitKind::Batch(batch) => exists|k: int|
            0 <= k < batch.members@.len() && (#[trigger] batch.members@[k]).aspace == aspace
                && batch.members@[k].pc == pc,
        PendingJitKind::Region(_) => false,
    }
}

impl QueueView {
    /// Nothing is in flight.
    pub open spec fn fresh() -> QueueView {
        QueueView {
            pending: Seq::empty(),
            next_ticket: 1,
            issues_this_run: 0,
            capacity_blocked: false,
            capacity_rejections: 0,
            boot_gen: 0,
            next_cell: 0,
            next_sequence: 1,
            cell_sequence: Seq::new(BATCH_CELLS as nat, |i: int| 0u64),
            base_pool: Seq::new(BATCH_CELLS as nat, |i: int| 0u32),
        }
    }

    pub open spec fn wf(self) -> bool {
        &&& self.next_cell < BATCH_CELLS
        &&& self.cell_sequence.len() == BATCH_CELLS
        &&& self.base_pool.len() == BATCH_CELLS
    }

    /// Whether another compilation may be handed to the host.
    pub open spec fn issue_allowed(self) -> bool {
        &&& !self.capacity_blocked
        &&& self.pending.len() < MAX_PENDING_JIT
        &&& self.issues_this_run < MAX_JIT_ISSUES_PER_RUN
    }

    /// The state after a compilation was handed to the host.
    pub open spec fn submitted(self, kind: PendingJitKind) -> QueueView {
        QueueView {
            pending: self.pending.push(
                PendingJit { ticket: self.next_ticket, boot_gen: self.boot_gen, kind },
            ),
            next_ticket: bumped(self.next_ticket),
            issues_this_run: (self.issues_this_run + 1) as u32,
            ..self
        }
    }

    /// The state after a cell was given to the next batch.
    pub open spec fn claimed_cell(self, cell: int) -> QueueView {
        QueueView {
            next_sequence: bumped(self.next_sequence),
            cell_sequence: self.cell_sequence.update(cell, self.next_sequence),
            ..self
        }
    }

    /// The state after a batch wrote its base to its cell, which it does while
    /// the cell is its own.
    pub open spec fn published(self, cell: int, sequence: u64, base: u32) -> QueueView {
        if 0 <= cell < BATCH_CELLS && self.cell_sequence[cell] == sequence {
            QueueView { base_pool: self.base_pool.update(cell, base), ..self }
        } else {
            self
        }
    }

    /// Where the compilation with a ticket is, from the `i`-th on.
    pub open spec fn position(self, ticket: u64, i: int) -> Option<int>
        decreases self.pending.len() - i,
    {
        if i < 0 || i >= self.pending.len() {
            None
        } else if self.pending[i].ticket == ticket {
            Some(i)
        } else {
            self.position(ticket, i + 1)
        }
    }

    /// The state without the compilation at `i`. The last takes its place.
    pub open spec fn taken(self, i: int) -> QueueView {
        QueueView { pending: self.pending.update(i, self.pending.last()).drop_last(), ..self }
    }
}

impl JitQueue {
    pub open spec fn wf(&self) -> bool {
        self@.wf()
    }

    pub fn new() -> (q: JitQueue)
        ensures
            q.wf(),
            q@ == QueueView::fresh(),
    {
        let mut cell_sequence: Vec<u64> = Vec::new();
        let mut base_pool: Vec<u32> = Vec::new();
        let mut i: usize = 0;
        assert(cell_sequence@ =~= Seq::new(0, |k: int| 0u64));
        assert(base_pool@ =~= Seq::new(0, |k: int| 0u32));
        while i < BATCH_CELLS
            invariant
                i <= BATCH_CELLS,
                cell_sequence@ == Seq::new(i as nat, |k: int| 0u64),
                base_pool@ == Seq::new(i as nat, |k: int| 0u32),
            decreases BATCH_CELLS - i,
        {
            cell_sequence.push(0);
            base_pool.push(0);
            i = i + 1;
            assert(cell_sequence@ =~= Seq::new(i as nat, |k: int| 0u64));
            assert(base_pool@ =~= Seq::new(i as nat, |k: int| 0u32));
        }
        let q = JitQueue {
            pending: Vec::new(),
            next_ticket: 1,
            issues_this_run: 0,
            capacity_blocked: false,
            capacity_rejections: 0,
            boot_gen: 0,
            next_cell: 0,
            next_sequence: 1,
            cell_sequence,
            base_pool,
        };
        assert(q@ =~= QueueView::fresh());
        q
    }

    /// Begin a run: the host has had its turn.
    pub fn begin_run(&mut self)
        ensures
            final(self)@ == (QueueView {
                capacity_blocked: false,
                issues_this_run: 0,
                ..old(self)@
            }),
    {
        self.capacity_blocked = false;
        self.issues_this_run = 0;
    }

    /// Begin with another machine: nothing in flight is wanted any more.
    pub fn reboot(&mut self)
        ensures
            final(self)@ == (QueueView {
                pending: Seq::empty(),
                boot_gen: bumped(old(self)@.boot_gen),
                capacity_blocked: false,
                ..old(self)@
            }),
    {
        self.boot_gen = bump(self.boot_gen);
        self.pending.clear();
        self.capacity_blocked = false;
        assert(self@.pending =~= Seq::empty());
    }

    /// How many compilations are in flight.
    pub fn in_flight(&self) -> (n: usize)
        ensures
            n == self@.pending.len(),
    {
        self.pending.len()
    }

    /// One of the compilations in flight.
    pub fn flying(&self, i: usize) -> (p: &PendingJit)
        requires
            i < self@.pending.len(),
        ensures
            *p == self@.pending[i as int],
    {
        &self.pending[i]
    }

    /// How often the host's code store was full.
    pub fn rejections(&self) -> (n: u64)
        ensures
            n == self@.capacity_rejections,
    {
        self.capacity_rejections
    }

    /// The number of the current boot.
    pub fn boot_generation(&self) -> (gen: u64)
        ensures
            gen == self@.boot_gen,
    {
        self.boot_gen
    }

    /// Whether anything may be compiled in this run.
    pub fn compilation_allowed(&self) -> (r: bool)
        ensures
            r == !self@.capacity_blocked,
    {
        !self.capacity_blocked
    }

    /// Whether anything was handed to the host in this run.
    pub fn issued(&self) -> (r: bool)
        ensures
            r == (self@.issues_this_run != 0),
    {
        self.issues_this_run != 0
    }

    /// Whether another compilation may be handed to the host.
    pub fn issue_allowed(&self) -> (r: bool)
        ensures
            r == self@.issue_allowed(),
    {
        !self.capacity_blocked && self.pending.len() < MAX_PENDING_JIT && self.issues_this_run
            < MAX_JIT_ISSUES_PER_RUN
    }

    /// Note that the host's code store is full.
    pub fn note_capacity(&mut self)
        ensures
            final(self)@ == (QueueView {
                capacity_blocked: true,
                capacity_rejections: bumped(old(self)@.capacity_rejections),
                ..old(self)@
            }),
    {
        self.capacity_rejections = bump(self.capacity_rejections);
        self.capacity_blocked = true;
    }

    /// Whether the code at `pc` is being compiled.
    pub fn contains_pc(&self, aspace: u64, pc: u64) -> (r: bool)
        ensures
            r == exists|i: int|
                0 <= i < self@.pending.len() && compiles_pc(
                    (#[trigger] self@.pending[i]).kind,
                    aspace,
                    pc,
                ),
    {
        let mut i: usize = 0;
        while i < self.pending.len()
            invariant
                i <= self.pending@.len(),
                forall|k: int|
                    0 <= k < i ==> !compiles_pc((#[trigger] self.pending@[k]).kind, aspace, pc),
            decreases self.pending@.len() - i,
        {
            if is_for(&self.pending[i].kind, aspace, pc) {
                assert(compiles_pc(self@.pending[i as int].kind, aspace, pc));
                return true;
            }
            i = i + 1;
        }
        false
    }

    /// A cell for the next batch, rotating through a fixed pool so that its
    /// address is stable for the life of the module.
    pub fn next_batch_cell(&mut self) -> (cell: usize)
        requires
            old(self).wf(),
        ensures
            final(self).wf(),
            cell == old(self)@.next_cell,
            cell < BATCH_CELLS,
            final(self)@ == (QueueView {
                next_cell: ((old(self)@.next_cell + 1) % BATCH_CELLS as nat),
                ..old(self)@
            }),
    {
        let cell: usize = self.next_cell;
        self.next_cell = (cell + 1) % BATCH_CELLS;
        cell
    }

    /// Give a cell to the next batch. Returns the number of the batch.
    pub fn claim_cell(&mut self, cell: usize) -> (sequence: u64)
        requires
            old(self).wf(),
            cell < BATCH_CELLS,
        ensures
            final(self).wf(),
            sequence == old(self)@.next_sequence,
            final(self)@ == old(self)@.claimed_cell(cell as int),
    {
        let sequence: u64 = self.next_sequence;
        self.next_sequence = bump(sequence);
        self.cell_sequence.set(cell, sequence);
        sequence
    }

    /// Write the base of a batch's slots to its cell, unless the cell belongs to
    /// a later batch.
    pub fn publish_base(&mut self, cell: usize, sequence: u64, base: u32)
        requires
            old(self).wf(),
        ensures
            final(self).wf(),
            final(self)@ == old(self)@.published(cell as int, sequence, base),
    {
        if cell < BATCH_CELLS && self.cell_sequence[cell] == sequence {
            self.base_pool.set(cell, base);
        }
    }

    /// What a cell holds.
    pub fn cell_base(&self, cell: usize) -> (base: u32)
        requires
            self.wf(),
            cell < BATCH_CELLS,
        ensures
            base == self@.base_pool[cell as int],
    {
        self.base_pool[cell]
    }

    /// Hand a compilation to the host, if it may be. Returns its ticket.
    pub fn submit(&mut self, kind: PendingJitKind) -> (ticket: Option<u64>)
        requires
            old(self).wf(),
        ensures
            final(self).wf(),
            if old(self)@.issue_allowed() {
                ticket == Some(old(self)@.next_ticket) && final(self)@ == old(self)@.submitted(kind)
            } else {
                ticket is None && final(self)@ == old(self)@
            },
    {
        if !self.issue_allowed() {
            return None;
        }
        let ticket: u64 = self.next_ticket;
        self.next_ticket = bump(ticket);
        self.pending.push(PendingJit { ticket, boot_gen: self.boot_gen, kind });
        self.issues_this_run = self.issues_this_run + 1;
        Some(ticket)
    }

    /// Take the compilation with a ticket.
    pub fn take(&mut self, ticket: u64) -> (p: Option<PendingJit>)
        requires
            old(self).wf(),
        ensures
            final(self).wf(),
            match (p, old(self)@.position(ticket, 0)) {
                (Some(p), Some(i)) => 0 <= i < old(self)@.pending.len() && p == old(
                    self,
                )@.pending[i] && p.ticket == ticket && final(self)@ == old(self)@.taken(i),
                (None, None) => final(self)@ == old(self)@,
                _ => false,
            },
    {
        let mut i: usize = 0;
        while i < self.pending.len()
            invariant
                i <= self.pending@.len(),
                self.wf(),
                self@ == old(self)@,
                old(self)@.position(ticket, 0) == old(self)@.position(ticket, i as int),
            decreases self.pending@.len() - i,
        {
            if self.pending[i].ticket == ticket {
                let p: PendingJit = self.pending.swap_remove(i);
                return Some(p);
            }
            i = i + 1;
        }
        None
    }

    /// How many compilations are of each kind: blocks, batches, regions.
    pub fn kinds(&self) -> (n: (u64, u64, u64))
        ensures
            n.0 == kind_count(self@.pending, 0, self@.pending.len() as int),
            n.1 == kind_count(self@.pending, 1, self@.pending.len() as int),
            n.2 == kind_count(self@.pending, 2, self@.pending.len() as int),
    {
        let (mut blocks, mut batches, mut regions): (u64, u64, u64) = (0, 0, 0);
        let mut i: usize = 0;
        while i < self.pending.len()
            invariant
                i <= self.pending.len(),
                blocks == kind_count(self.pending@, 0, i as int),
                batches == kind_count(self.pending@, 1, i as int),
                regions == kind_count(self.pending@, 2, i as int),
                blocks <= i,
                batches <= i,
                regions <= i,
            decreases self.pending@.len() - i,
        {
            match &self.pending[i].kind {
                PendingJitKind::Block(_) => {
                    blocks = blocks + 1;
                },
                PendingJitKind::Batch(_) => {
                    batches = batches + 1;
                },
                PendingJitKind::Region(_) => {
                    regions = regions + 1;
                },
            }
            i = i + 1;
        }
        (blocks, batches, regions)
    }
}

/// Which kind a compilation is of.
pub open spec fn kind_number(kind: PendingJitKind) -> int {
    match kind {
        PendingJitKind::Block(_) => 0,
        PendingJitKind::Batch(_) => 1,
        PendingJitKind::Region(_) => 2,
    }
}

/// How many of the first `n` compilations are of a kind.
pub open spec fn kind_count(pending: Seq<PendingJit>, kind: int, n: int) -> int
    decreases n,
{
    if n <= 0 {
        0
    } else {
        kind_count(pending, kind, n - 1) + if kind_number(pending[n - 1].kind) == kind {
            1int
        } else {
            0
        }
    }
}

fn has_member(batch: &PendingBatch, aspace: u64, pc: u64) -> (r: bool)
    ensures
        r == exists|k: int|
            0 <= k < batch.members@.len() && (#[trigger] batch.members@[k]).aspace == aspace
                && batch.members@[k].pc == pc,
{
    let mut i: usize = 0;
    while i < batch.members.len()
        invariant
            i <= batch.members@.len(),
            forall|k: int|
                0 <= k < i ==> !((#[trigger] batch.members@[k]).aspace == aspace
                    && batch.members@[k].pc == pc),
        decreases batch.members@.len() - i,
    {
        if batch.members[i].aspace == aspace && batch.members[i].pc == pc {
            assert(batch.members@[i as int].pc == pc);
            return true;
        }
        i = i + 1;
    }
    false
}

fn is_for(kind: &PendingJitKind, aspace: u64, pc: u64) -> (r: bool)
    ensures
        r == compiles_pc(*kind, aspace, pc),
{
    match kind {
        PendingJitKind::Block(block) => block.aspace == aspace && block.pc == pc,
        PendingJitKind::Batch(batch) => has_member(batch, aspace, pc),
        PendingJitKind::Region(_) => false,
    }
}

// ---- laws ----------------------------------------------------------------

/// A run hands at most one compilation to the host, and no more than the window
/// are ever in flight.
pub proof fn law_issues_are_bounded(q: QueueView, kind: PendingJitKind)
    requires
        q.issue_allowed(),
    ensures
        !q.submitted(kind).issue_allowed(),
        q.submitted(kind).pending.len() <= MAX_PENDING_JIT,
{
}

/// A cell that has gone to a later batch is never written for an earlier one.
pub proof fn law_late_batch_does_not_write_its_cell(
    q: QueueView,
    cell: int,
    first: u64,
    base: u32,
)
    requires
        q.wf(),
        first != q.next_sequence,
    ensures
        q.claimed_cell(cell).published(cell, first, base) == q.claimed_cell(cell),
{
}

} // verus!
