//! Direct-mapped tables on the dispatch path: dispatch lines, hot counters,
//! observed successors and first-instruction bails.

use vstd::prelude::*;
use std::collections::{HashMap, HashSet};

verus! {

broadcast use vstd::std_specs::hash::group_hash_axioms;

/// The pc of an empty line.
pub const NO_PC: u64 = 0xffff_ffff_ffff_ffff;

/// Lines of each table: a power of two.
pub const DISPATCH_SIZE: usize = 0x4_0000;

/// The line of a pc.
pub open spec fn line_of(pc: u64) -> int {
    pc as int / 2 % 0x4_0000
}

/// The line of a pc.
pub fn dslot(pc: u64) -> (slot: usize)
    ensures
        slot == line_of(pc),
        slot < DISPATCH_SIZE,
{
    (pc / 2 % 0x4_0000) as usize
}

// ---- dispatch lines ------------------------------------------------------

/// Direct-mapped dispatch line: `pc` is the full key. A line with
/// `pc == NO_PC` is empty.
#[derive(Clone, Copy, Debug, PartialEq, Eq, Structural)]
pub struct DispatchLine {
    pub pc: u64,
    /// Tagged function-table index, negative for code that cannot be compiled.
    pub idx: i32,
    /// Map generation at the last successful verification of the mapping.
    pub gen: u32,
}

/// The lines, and a conservative filter for compiled entry PCs. The filter
/// spares the lookahead of the interpreter a map lookup for the common
/// uncompiled instruction; stale bits after eviction are harmless.
pub struct Dispatch {
    lines: Vec<DispatchLine>,
    filter: Vec<bool>,
}

/// The state of a [`Dispatch`].
#[verifier::ext_equal]
pub struct DispatchView {
    pub lines: Seq<DispatchLine>,
    pub filter: Seq<bool>,
}

impl View for Dispatch {
    type V = DispatchView;

    closed spec fn view(&self) -> DispatchView {
        DispatchView { lines: self.lines@, filter: self.filter@ }
    }
}

impl DispatchView {
    /// Empty lines.
    pub open spec fn fresh() -> DispatchView {
        DispatchView {
            lines: Seq::new(
                DISPATCH_SIZE as nat,
                |i: int| DispatchLine { pc: NO_PC, idx: 0, gen: 0 },
            ),
            filter: Seq::new(DISPATCH_SIZE as nat, |i: int| false),
        }
    }

    /// The lines emptied.
    pub open spec fn emptied(self) -> DispatchView {
        DispatchView {
            lines: self.lines.map_values(|line: DispatchLine| DispatchLine { pc: NO_PC, ..line }),
            filter: Seq::new(DISPATCH_SIZE as nat, |i: int| false),
        }
    }

    pub open spec fn wf(self) -> bool {
        self.lines.len() == DISPATCH_SIZE && self.filter.len() == DISPATCH_SIZE
    }

    /// The lines with no line for `pc`.
    pub open spec fn without_line(self, pc: u64) -> DispatchView {
        let line = self.lines[line_of(pc)];
        if line.pc == pc {
            DispatchView {
                lines: self.lines.update(line_of(pc), DispatchLine { pc: NO_PC, ..line }),
                ..self
            }
        } else {
            self
        }
    }

    /// The lines with no line for any of the first `n` pcs.
    pub open spec fn without_lines(self, pcs: Seq<u64>, n: int) -> DispatchView
        decreases n,
    {
        if n <= 0 {
            self
        } else {
            self.without_lines(pcs, n - 1).without_line(pcs[n - 1])
        }
    }

    /// The lines with a line for `pc`.
    pub open spec fn with_line(self, pc: u64, idx: i32, gen: u32) -> DispatchView {
        DispatchView {
            lines: self.lines.update(line_of(pc), DispatchLine { pc, idx, gen }),
            ..self
        }
    }

    /// The filter with `pc` noted as compiled.
    pub open spec fn noted(self, pc: u64) -> DispatchView {
        DispatchView { filter: self.filter.update(line_of(pc), true), ..self }
    }
}

impl Dispatch {
    pub open spec fn wf(&self) -> bool {
        self@.wf()
    }

    pub fn new() -> (d: Dispatch)
        ensures
            d.wf(),
            d@ == DispatchView::fresh(),
    {
        let mut lines: Vec<DispatchLine> = Vec::new();
        let mut filter: Vec<bool> = Vec::new();
        let mut i: usize = 0;
        while i < DISPATCH_SIZE
            invariant
                i <= DISPATCH_SIZE,
                lines@.len() == i,
                filter@.len() == i,
                forall|k: int|
                    0 <= k < i ==> #[trigger] lines@[k] == (DispatchLine {
                        pc: NO_PC,
                        idx: 0,
                        gen: 0,
                    }),
                forall|k: int| 0 <= k < i ==> !(#[trigger] filter@[k]),
            decreases DISPATCH_SIZE - i,
        {
            lines.push(DispatchLine { pc: NO_PC, idx: 0, gen: 0 });
            filter.push(false);
            i = i + 1;
        }
        let d = Dispatch { lines, filter };
        assert(d@ =~= DispatchView::fresh());
        d
    }

    /// Empty every line and the filter.
    pub fn clear(&mut self)
        requires
            old(self).wf(),
        ensures
            final(self).wf(),
            final(self)@ == old(self)@.emptied(),
    {
        let mut i: usize = 0;
        while i < DISPATCH_SIZE
            invariant
                i <= DISPATCH_SIZE,
                self.wf(),
                old(self).wf(),
                forall|k: int|
                    0 <= k < i ==> #[trigger] self@.lines[k] == (DispatchLine {
                        pc: NO_PC,
                        ..old(self)@.lines[k]
                    }),
                forall|k: int|
                    i <= k < DISPATCH_SIZE ==> #[trigger] self@.lines[k] == old(self)@.lines[k],
                forall|k: int| 0 <= k < i ==> !(#[trigger] self@.filter[k]),
            decreases DISPATCH_SIZE - i,
        {
            let line: DispatchLine = self.lines[i];
            assert(self@.lines[i as int] == line);
            self.lines.set(i, DispatchLine { pc: NO_PC, ..line });
            self.filter.set(i, false);
            i = i + 1;
        }
        assert(self@ =~= old(self)@.emptied());
    }

    /// The line that `pc` maps to.
    pub fn line(&self, pc: u64) -> (line: DispatchLine)
        requires
            self.wf(),
        ensures
            line == self@.lines[line_of(pc)],
    {
        self.lines[dslot(pc)]
    }

    /// Empty the line of `pc`, if it is there.
    pub fn clear_line(&mut self, pc: u64)
        requires
            old(self).wf(),
        ensures
            final(self).wf(),
            final(self)@ == old(self)@.without_line(pc),
    {
        let slot: usize = dslot(pc);
        let line: DispatchLine = self.lines[slot];
        if line.pc == pc {
            self.lines.set(slot, DispatchLine { pc: NO_PC, ..line });
        }
        assert(self@ =~= old(self)@.without_line(pc));
    }

    /// Empty the lines of several pcs.
    pub fn clear_lines(&mut self, pcs: &[u64])
        requires
            old(self).wf(),
        ensures
            final(self).wf(),
            final(self)@ == old(self)@.without_lines(pcs@, pcs@.len() as int),
            final(self)@.filter == old(self)@.filter,
    {
        let mut i: usize = 0;
        while i < pcs.len()
            invariant
                i <= pcs@.len(),
                self.wf(),
                self@ == old(self)@.without_lines(pcs@, i as int),
                self@.filter == old(self)@.filter,
            decreases pcs@.len() - i,
        {
            self.clear_line(pcs[i]);
            i = i + 1;
        }
    }

    /// Fill the line of `pc`.
    pub fn set_line(&mut self, pc: u64, idx: i32, gen: u32)
        requires
            old(self).wf(),
        ensures
            final(self).wf(),
            final(self)@ == old(self)@.with_line(pc, idx, gen),
    {
        self.lines.set(dslot(pc), DispatchLine { pc, idx, gen });
    }

    /// Note that the code at `pc` is compiled.
    pub fn note_entry(&mut self, pc: u64)
        requires
            old(self).wf(),
        ensures
            final(self).wf(),
            final(self)@ == old(self)@.noted(pc),
    {
        self.filter.set(dslot(pc), true);
    }

    /// Whether the code at `pc` may be compiled. Code that is compiled may be.
    pub fn may_have_compiled(&self, pc: u64) -> (r: bool)
        requires
            self.wf(),
        ensures
            r == self@.filter[line_of(pc)],
    {
        self.filter[dslot(pc)]
    }
}

// ---- hot counters --------------------------------------------------------

/// Cheap direct-mapped hot counters for decoded interpreter block entries, and
/// the entries that have proved hot. Counters are tagged: without a tag
/// unrelated pcs would inherit a line's heat and be compiled on their first
/// execution.
pub struct Heat {
    pub hot: HashMap<u64, u32>,
    counts: Vec<u16>,
    tags: Vec<u32>,
}

/// The state of a [`Heat`].
#[verifier::ext_equal]
pub struct HeatView {
    pub hot: Map<u64, u32>,
    pub counts: Seq<u16>,
    pub tags: Seq<u32>,
}

impl View for Heat {
    type V = HeatView;

    closed spec fn view(&self) -> HeatView {
        HeatView { hot: self.hot@, counts: self.counts@, tags: self.tags@ }
    }
}

/// What tells apart the pcs of a line.
pub open spec fn tag_of(pc: u64) -> u32 {
    (pc as int / 2 % 0x1_0000_0000) as u32
}

fn tag(pc: u64) -> (t: u32)
    ensures
        t == tag_of(pc),
{
    (pc / 2 % 0x1_0000_0000) as u32
}

impl HeatView {
    /// No heat.
    pub open spec fn fresh() -> HeatView {
        HeatView {
            hot: Map::empty(),
            counts: Seq::new(DISPATCH_SIZE as nat, |i: int| 0u16),
            tags: Seq::new(DISPATCH_SIZE as nat, |i: int| 0u32),
        }
    }

    pub open spec fn wf(self) -> bool {
        self.counts.len() == DISPATCH_SIZE && self.tags.len() == DISPATCH_SIZE
    }

    /// How often the interpreter has entered `pc`, as far as is known.
    pub open spec fn count(self, pc: u64) -> u16 {
        if self.tags[line_of(pc)] == tag_of(pc) {
            self.counts[line_of(pc)]
        } else {
            0
        }
    }

    /// The counters after the interpreter entered `pc` once more.
    pub open spec fn entered(self, pc: u64) -> HeatView {
        HeatView {
            counts: self.counts.update(
                line_of(pc),
                if self.count(pc) == u16::MAX {
                    u16::MAX
                } else {
                    (self.count(pc) + 1) as u16
                },
            ),
            tags: self.tags.update(line_of(pc), tag_of(pc)),
            ..self
        }
    }

    /// The counters after `pc` lost its heat.
    pub open spec fn cooled(self, pc: u64) -> HeatView {
        HeatView {
            hot: self.hot.remove(pc),
            counts: if self.tags[line_of(pc)] == tag_of(pc) {
                self.counts.update(line_of(pc), 0)
            } else {
                self.counts
            },
            ..self
        }
    }

    /// The counters after the first `n` pcs lost their heat.
    pub open spec fn cooled_all(self, pcs: Seq<u64>, n: int) -> HeatView
        decreases n,
    {
        if n <= 0 {
            self
        } else {
            self.cooled_all(pcs, n - 1).cooled(pcs[n - 1])
        }
    }

    /// How often the dispatcher has found `pc` uncompiled.
    pub open spec fn dispatched(self, pc: u64) -> u32 {
        if self.hot.contains_key(pc) {
            self.hot[pc]
        } else {
            0
        }
    }
}

impl Heat {
    pub open spec fn wf(&self) -> bool {
        self@.wf()
    }

    pub fn new() -> (h: Heat)
        ensures
            h.wf(),
            h@ == HeatView::fresh(),
    {
        let mut counts: Vec<u16> = Vec::new();
        let mut tags: Vec<u32> = Vec::new();
        let mut i: usize = 0;
        while i < DISPATCH_SIZE
            invariant
                i <= DISPATCH_SIZE,
                counts@.len() == i,
                tags@.len() == i,
                forall|k: int| 0 <= k < i ==> #[trigger] counts@[k] == 0,
                forall|k: int| 0 <= k < i ==> #[trigger] tags@[k] == 0,
            decreases DISPATCH_SIZE - i,
        {
            counts.push(0);
            tags.push(0);
            i = i + 1;
        }
        let h = Heat { hot: HashMap::new(), counts, tags };
        assert(h@ =~= HeatView::fresh());
        h
    }

    pub fn clear(&mut self)
        requires
            old(self).wf(),
        ensures
            final(self).wf(),
            final(self)@ == HeatView::fresh(),
    {
        self.hot.clear();
        let mut i: usize = 0;
        while i < DISPATCH_SIZE
            invariant
                i <= DISPATCH_SIZE,
                self.wf(),
                self@.hot == Map::<u64, u32>::empty(),
                forall|k: int| 0 <= k < i ==> #[trigger] self@.counts[k] == 0,
                forall|k: int| 0 <= k < i ==> #[trigger] self@.tags[k] == 0,
            decreases DISPATCH_SIZE - i,
        {
            self.counts.set(i, 0);
            self.tags.set(i, 0);
            i = i + 1;
        }
        assert(self@ =~= HeatView::fresh());
    }

    /// How often the interpreter has entered `pc`, as far as is known.
    pub fn count(&self, pc: u64) -> (n: u16)
        requires
            self.wf(),
        ensures
            n == self@.count(pc),
    {
        let slot: usize = dslot(pc);
        if self.tags[slot] == tag(pc) {
            self.counts[slot]
        } else {
            0
        }
    }

    /// Note that the interpreter enters `pc`. Returns how often it has.
    pub fn enter(&mut self, pc: u64) -> (n: u16)
        requires
            old(self).wf(),
        ensures
            final(self).wf(),
            final(self)@ == old(self)@.entered(pc),
            n == final(self)@.count(pc),
    {
        let slot: usize = dslot(pc);
        let n: u16 = self.count(pc).saturating_add(1);
        self.tags.set(slot, tag(pc));
        self.counts.set(slot, n);
        n
    }

    /// Take the heat from an evicted entry.
    pub fn cool(&mut self, pc: u64)
        requires
            old(self).wf(),
        ensures
            final(self).wf(),
            final(self)@ == old(self)@.cooled(pc),
    {
        self.hot.remove(&pc);
        let slot: usize = dslot(pc);
        if self.tags[slot] == tag(pc) {
            self.counts.set(slot, 0);
        }
        assert(self@ =~= old(self)@.cooled(pc));
    }

    /// Take the heat from several evicted entries.
    pub fn cool_all(&mut self, pcs: &[u64])
        requires
            old(self).wf(),
        ensures
            final(self).wf(),
            final(self)@ == old(self)@.cooled_all(pcs@, pcs@.len() as int),
    {
        let mut i: usize = 0;
        while i < pcs.len()
            invariant
                i <= pcs@.len(),
                self.wf(),
                self@ == old(self)@.cooled_all(pcs@, i as int),
            decreases pcs@.len() - i,
        {
            self.cool(pcs[i]);
            i = i + 1;
        }
    }

    /// How many pcs have heat.
    pub fn hot_count(&self) -> (n: usize)
        ensures
            n == self@.hot.dom().len(),
    {
        self.hot.len()
    }

    /// The heat of `pc`, if it has any.
    pub fn heat_of(&self, pc: u64) -> (heat: Option<u32>)
        ensures
            heat == if self@.hot.contains_key(pc) {
                Some(self@.hot[pc])
            } else {
                None
            },
    {
        match self.hot.get(&pc) {
            Some(heat) => Some(*heat),
            None => None,
        }
    }

    /// Note that `pc` is hot.
    pub fn promote(&mut self, pc: u64, heat: u32)
        ensures
            final(self)@ == (HeatView { hot: old(self)@.hot.insert(pc, heat), ..old(self)@ }),
    {
        self.hot.insert(pc, heat);
    }

    /// Note that the dispatcher found `pc` uncompiled. Returns how often it has.
    pub fn dispatch(&mut self, pc: u64) -> (n: u32)
        requires
            old(self).wf(),
        ensures
            final(self).wf(),
            n == if old(self)@.dispatched(pc) == u32::MAX {
                u32::MAX
            } else {
                (old(self)@.dispatched(pc) + 1) as u32
            },
            final(self)@ == (HeatView { hot: old(self)@.hot.insert(pc, n), ..old(self)@ }),
    {
        let n: u32 = match self.hot.get(&pc) {
            Some(n) => n.saturating_add(1),
            None => 1,
        };
        self.hot.insert(pc, n);
        n
    }
}

// ---- observed successors -------------------------------------------------

/// Where each dispatched pc went last, and how often in a row.
#[derive(Clone, Copy, Debug, PartialEq, Eq, Structural)]
pub struct Successor {
    pub pc: u64,
    pub next: u64,
    /// How often in a row, or the greatest number once the pc was extended.
    pub count: u32,
}

/// The observed successors, and the entries already recompiled once with an
/// inline cache: extension happens at most once per pc, so a flapping successor
/// cannot loop the compiler.
pub struct Successors {
    rows: Vec<Successor>,
    extended: HashSet<u64>,
}

/// The state of a [`Successors`].
#[verifier::ext_equal]
pub struct SuccessorsView {
    pub rows: Seq<Successor>,
    pub extended: Set<u64>,
}

impl View for Successors {
    type V = SuccessorsView;

    closed spec fn view(&self) -> SuccessorsView {
        SuccessorsView { rows: self.rows@, extended: self.extended@ }
    }
}

/// How often in a row `row.pc` has gone to `next`, once it goes there again.
pub open spec fn run_after(row: Successor, next: u64) -> int {
    if row.next == next {
        row.count + 1
    } else {
        1
    }
}

/// The row after `pc` went to `next`.
pub open spec fn row_after(row: Successor, pc: u64, next: u64, trigger: u32) -> Successor {
    if row.pc != pc {
        Successor { pc, next, count: 1 }
    } else if row.count == u32::MAX {
        row
    } else {
        Successor {
            pc,
            next,
            count: if run_after(row, next) == trigger {
                u32::MAX
            } else {
                run_after(row, next) as u32
            },
        }
    }
}

impl SuccessorsView {
    /// Nothing was observed.
    pub open spec fn fresh() -> SuccessorsView {
        SuccessorsView {
            rows: Seq::new(
                DISPATCH_SIZE as nat,
                |i: int| Successor { pc: NO_PC, next: 0, count: 0 },
            ),
            extended: Set::empty(),
        }
    }

    pub open spec fn wf(self) -> bool {
        self.rows.len() == DISPATCH_SIZE
    }

    /// Whether `pc` going to `next` proves the edge stable.
    pub open spec fn proves(self, pc: u64, next: u64, trigger: u32) -> bool {
        let row = self.rows[line_of(pc)];
        &&& row.pc == pc
        &&& row.count != u32::MAX
        &&& run_after(row, next) == trigger
    }

    /// The successors after `pc` went to `next`.
    pub open spec fn observed(self, pc: u64, next: u64, trigger: u32) -> SuccessorsView {
        SuccessorsView {
            rows: self.rows.update(
                line_of(pc),
                row_after(self.rows[line_of(pc)], pc, next, trigger),
            ),
            extended: if self.proves(pc, next, trigger) {
                self.extended.insert(pc)
            } else {
                self.extended
            },
        }
    }

    /// Where `pc` went last, if it has gone there at least so often in a row.
    pub open spec fn next(self, pc: u64, least: u32) -> Option<u64> {
        let row = self.rows[line_of(pc)];
        if row.pc == pc && row.count >= least {
            Some(row.next)
        } else {
            None
        }
    }
}

impl Successors {
    pub open spec fn wf(&self) -> bool {
        self@.wf()
    }

    pub fn new() -> (s: Successors)
        ensures
            s.wf(),
            s@ == SuccessorsView::fresh(),
    {
        let mut rows: Vec<Successor> = Vec::new();
        let mut i: usize = 0;
        while i < DISPATCH_SIZE
            invariant
                i <= DISPATCH_SIZE,
                rows@.len() == i,
                forall|k: int|
                    0 <= k < i ==> #[trigger] rows@[k] == (Successor {
                        pc: NO_PC,
                        next: 0,
                        count: 0,
                    }),
            decreases DISPATCH_SIZE - i,
        {
            rows.push(Successor { pc: NO_PC, next: 0, count: 0 });
            i = i + 1;
        }
        let s = Successors { rows, extended: HashSet::new() };
        assert(s@ =~= SuccessorsView::fresh());
        s
    }

    pub fn clear(&mut self)
        requires
            old(self).wf(),
        ensures
            final(self).wf(),
            final(self)@ == SuccessorsView::fresh(),
    {
        self.extended.clear();
        let mut i: usize = 0;
        while i < DISPATCH_SIZE
            invariant
                i <= DISPATCH_SIZE,
                self.wf(),
                self@.extended == Set::<u64>::empty(),
                forall|k: int|
                    0 <= k < i ==> #[trigger] self@.rows[k] == (Successor {
                        pc: NO_PC,
                        next: 0,
                        count: 0,
                    }),
            decreases DISPATCH_SIZE - i,
        {
            self.rows.set(i, Successor { pc: NO_PC, next: 0, count: 0 });
            i = i + 1;
        }
        assert(self@ =~= SuccessorsView::fresh());
    }

    /// Note that `pc` went to `next`. Says whether the entry is to be recompiled
    /// through the edge: once the edge is proven stable, and once per pc.
    pub fn observe(&mut self, pc: u64, next: u64, trigger: u32) -> (extend: bool)
        requires
            old(self).wf(),
        ensures
            final(self).wf(),
            final(self)@ == old(self)@.observed(pc, next, trigger),
            extend == (old(self)@.proves(pc, next, trigger) && !old(self)@.extended.contains(pc)),
    {
        let slot: usize = dslot(pc);
        let row: Successor = self.rows[slot];
        let mut extend: bool = false;
        if row.pc != pc {
            self.rows.set(slot, Successor { pc, next, count: 1 });
        } else if row.count != u32::MAX {
            let mut count: u32 = 1;
            if row.next == next {
                count = row.count + 1;
            }
            if count == trigger {
                count = u32::MAX;
                extend = self.extended.insert(pc);
            }
            self.rows.set(slot, Successor { pc, next, count });
        }
        assert(self@ =~= old(self)@.observed(pc, next, trigger));
        extend
    }

    /// Where `pc` went last, if it has gone there at least so often in a row.
    pub fn next(&self, pc: u64, least: u32) -> (next: Option<u64>)
        requires
            self.wf(),
        ensures
            next == self@.next(pc, least),
    {
        let row: Successor = self.rows[dslot(pc)];
        if row.pc == pc && row.count >= least {
            Some(row.next)
        } else {
            None
        }
    }
}

// ---- bails ---------------------------------------------------------------

/// Bails before refill is compiled in.
pub const TLB_AUTO_BAIL_TRIGGER: u64 = 65_536;

/// Bails of one pc before it is recompiled.
pub const TLB_AUTO_PC_RECOMPILE: u8 = 8;

/// Repeated entries that retired nothing and that the FP gate does not explain.
/// These are overwhelmingly first-memory-operation TLB misses.
pub struct TlbBails {
    rows: Vec<(u64, u8)>,
    total: u64,
    auto_enabled: bool,
}

/// The state of a [`TlbBails`].
#[verifier::ext_equal]
pub struct BailsView {
    pub rows: Seq<(u64, u8)>,
    pub total: u64,
    /// Whether refill is compiled in since the bails became material.
    pub auto_enabled: bool,
}

impl View for TlbBails {
    type V = BailsView;

    closed spec fn view(&self) -> BailsView {
        BailsView { rows: self.rows@, total: self.total, auto_enabled: self.auto_enabled }
    }
}

impl BailsView {
    /// No bails.
    pub open spec fn fresh() -> BailsView {
        BailsView {
            rows: Seq::new(DISPATCH_SIZE as nat, |i: int| (NO_PC, 0u8)),
            total: 0,
            auto_enabled: false,
        }
    }

    pub open spec fn wf(self) -> bool {
        self.rows.len() == DISPATCH_SIZE
    }

    /// How often `pc` has bailed, once more than is known; the greatest number
    /// once it was recompiled.
    pub open spec fn count(self, pc: u64) -> u8 {
        let row = self.rows[line_of(pc)];
        if row.0 != pc {
            1
        } else if row.1 == u8::MAX {
            u8::MAX
        } else {
            (row.1 + 1) as u8
        }
    }

    /// The bails after one more.
    pub open spec fn total_after(self) -> u64 {
        if self.total == u64::MAX {
            u64::MAX
        } else {
            (self.total + 1) as u64
        }
    }

    /// Whether refill is compiled in after one more bail.
    pub open spec fn enabled_after(self) -> bool {
        self.auto_enabled || self.total_after() >= TLB_AUTO_BAIL_TRIGGER
    }

    /// Whether `pc`, bailing once more, is to be recompiled: with refill
    /// compiled in, after enough bails, and once.
    pub open spec fn recompiles(self, pc: u64) -> bool {
        self.enabled_after() && TLB_AUTO_PC_RECOMPILE <= self.count(pc) < u8::MAX
    }

    /// The bails after `pc` bailed once more.
    pub open spec fn bailed(self, pc: u64) -> BailsView {
        BailsView {
            rows: self.rows.update(
                line_of(pc),
                (
                    pc,
                    if self.recompiles(pc) {
                        u8::MAX
                    } else {
                        self.count(pc)
                    },
                ),
            ),
            total: self.total_after(),
            auto_enabled: self.enabled_after(),
        }
    }
}

impl TlbBails {
    pub open spec fn wf(&self) -> bool {
        self@.wf()
    }

    pub fn new() -> (b: TlbBails)
        ensures
            b.wf(),
            b@ == BailsView::fresh(),
    {
        let mut rows: Vec<(u64, u8)> = Vec::new();
        let mut i: usize = 0;
        while i < DISPATCH_SIZE
            invariant
                i <= DISPATCH_SIZE,
                rows@.len() == i,
                forall|k: int| 0 <= k < i ==> #[trigger] rows@[k] == (NO_PC, 0u8),
            decreases DISPATCH_SIZE - i,
        {
            rows.push((NO_PC, 0));
            i = i + 1;
        }
        let b = TlbBails { rows, total: 0, auto_enabled: false };
        assert(b@ =~= BailsView::fresh());
        b
    }

    pub fn clear(&mut self)
        requires
            old(self).wf(),
        ensures
            final(self).wf(),
            final(self)@ == BailsView::fresh(),
    {
        self.total = 0;
        self.auto_enabled = false;
        let mut i: usize = 0;
        while i < DISPATCH_SIZE
            invariant
                i <= DISPATCH_SIZE,
                self.wf(),
                self@.total == 0,
                !self@.auto_enabled,
                forall|k: int| 0 <= k < i ==> #[trigger] self@.rows[k] == (NO_PC, 0u8),
            decreases DISPATCH_SIZE - i,
        {
            self.rows.set(i, (NO_PC, 0));
            i = i + 1;
        }
        assert(self@ =~= BailsView::fresh());
    }

    /// (bails so far, whether refill is compiled in).
    pub fn counts(&self) -> (c: (u64, bool))
        ensures
            c == (self@.total, self@.auto_enabled),
    {
        (self.total, self.auto_enabled)
    }

    /// Note a bail of `pc`. Says whether the entry is to be recompiled.
    pub fn observe(&mut self, pc: u64) -> (recompile: bool)
        requires
            old(self).wf(),
        ensures
            final(self).wf(),
            final(self)@ == old(self)@.bailed(pc),
            recompile == old(self)@.recompiles(pc),
    {
        self.total = self.total.saturating_add(1);
        let slot: usize = dslot(pc);
        let row: (u64, u8) = self.rows[slot];
        let mut count: u8 = 1;
        if row.0 == pc {
            count = row.1.saturating_add(1);
        }
        if self.total >= TLB_AUTO_BAIL_TRIGGER {
            self.auto_enabled = true;
        }
        let recompile: bool = self.auto_enabled && count >= TLB_AUTO_PC_RECOMPILE && count
            != u8::MAX;
        if recompile {
            count = u8::MAX;
        }
        self.rows.set(slot, (pc, count));
        assert(self@ =~= old(self)@.bailed(pc));
        recompile
    }
}

// ---- laws ----------------------------------------------------------------

/// Heat belongs to one pc: entering a pc that shares a line with another does
/// not warm the other.
pub proof fn law_heat_is_not_inherited(h: HeatView, pc: u64, other: u64)
    requires
        h.wf(),
        tag_of(pc) != tag_of(other),
    ensures
        h.entered(pc).count(other) <= h.count(other),
{
}

/// An entry is recompiled for its bails at most once: the next bails of the same
/// pc never ask for it again.
pub proof fn law_bails_recompile_once(b: BailsView, pc: u64)
    requires
        b.wf(),
        b.recompiles(pc),
    ensures
        !b.bailed(pc).recompiles(pc),
        b.bailed(pc).bailed(pc).rows[line_of(pc)] == b.bailed(pc).rows[line_of(pc)],
{
}

/// An entry is extended at most once: a pc that was extended is never asked for
/// again, whatever it does next and whatever shared its line meanwhile.
pub proof fn law_extended_once(s: SuccessorsView, pc: u64, next: u64, trigger: u32, other: u64)
    requires
        s.extended.contains(pc),
    ensures
        s.observed(other, next, trigger).extended.contains(pc),
{
}

} // verus!
