//! Diagnostics: where dispatches go, what the translator gives up on, and what
//! modules cost.

use vstd::prelude::*;
use crate::jit::block::JitBlock;

verus! {

/// Rows of the dispatch and edge profiles.
pub const DPROF_N: usize = 8192;

/// Rows of the histogram of instructions.
pub const IHIST_N: usize = 1024;

/// Cells of the module profile.
pub const MEMPROF_N: usize = 89;

/// A sum in the width of a counter.
pub open spec fn summed(a: u64, b: u64) -> u64 {
    if a + b <= u64::MAX {
        (a + b) as u64
    } else {
        (a + b - 0x1_0000_0000_0000_0000) as u64
    }
}

/// A row of a profile: its key, how often it was hit, and what it retired.
#[derive(Debug, Clone, Copy, PartialEq, Eq, Structural)]
pub struct Row {
    pub source: u64,
    pub target: u64,
    pub count: u64,
    pub retired: u64,
}

/// An empty row.
pub open spec fn empty_row() -> Row {
    Row { source: 0, target: 0, count: 0, retired: 0 }
}

/// The row after a hit. The first key keeps the row: another that falls on it
/// is not counted.
pub open spec fn hit(row: Row, source: u64, target: u64, retired: u64) -> Row {
    if (row.source != source || row.target != target) && row.count != 0 {
        row
    } else {
        Row {
            source,
            target,
            count: summed(row.count, 1),
            retired: summed(row.retired, retired),
        }
    }
}

fn hit_row(row: Row, source: u64, target: u64, retired: u64) -> (now: Row)
    ensures
        now == hit(row, source, target, retired),
{
    if (row.source != source || row.target != target) && row.count != 0 {
        row
    } else {
        Row {
            source,
            target,
            count: row.count.wrapping_add(1),
            retired: row.retired.wrapping_add(retired),
        }
    }
}

/// The row of a pc.
pub open spec fn pc_row(pc: u64) -> u64 {
    ((pc >> 1) ^ (pc >> 13)) & 0x1fff
}

/// The row of an edge.
pub open spec fn edge_row(source: u64, target: u64) -> u64 {
    ((source >> 1) ^ (source >> 13) ^ (target >> 3) ^ (target >> 17)) & 0x1fff
}

/// The encoding fields that select an emitter path: all of a compressed
/// instruction, opcode, funct3, funct7 and rs2 of another.
pub open spec fn insn_key(insn: u32) -> u32 {
    if insn & 3 != 3 {
        insn & 0xffff
    } else {
        insn & 0xfff0_707f
    }
}

/// The row of an encoding.
pub open spec fn key_row(key: u32) -> u32 {
    (wrapping_product(key ^ (key >> 13), 0x9e37_79b9) >> 18) & 0x3ff
}

/// A product in the width of an encoding.
pub open spec fn wrapping_product(a: u32, b: u32) -> u32 {
    (a * b % 0x1_0000_0000) as u32
}

/// What is profiled.
pub struct Profile {
    /// Whether dispatches are profiled.
    on: bool,
    /// Profile one of every 2^N dispatches.
    sample_shift: u32,
    tick: u64,
    dispatches: Vec<Row>,
    edges: Vec<Row>,
    insns: Vec<Row>,
    /// The instruction where compiled execution yielded last.
    last_insn: Option<usize>,
    /// Calls and instructions of blocks, then of region functions.
    calls: [u64; 4],
    /// Instructions of traces by kind: five of the mix, ten of memory, three of
    /// control, five of ALU operations.
    mix: Vec<u64>,
}

/// The state of a [`Profile`].
#[verifier::ext_equal]
pub struct ProfileView {
    pub on: bool,
    pub sample_shift: u32,
    pub tick: u64,
    pub dispatches: Seq<Row>,
    pub edges: Seq<Row>,
    pub insns: Seq<Row>,
    pub last_insn: Option<usize>,
    pub calls: Seq<u64>,
    pub mix: Seq<u64>,
}

impl View for Profile {
    type V = ProfileView;

    closed spec fn view(&self) -> ProfileView {
        ProfileView {
            on: self.on,
            sample_shift: self.sample_shift,
            tick: self.tick,
            dispatches: self.dispatches@,
            edges: self.edges@,
            insns: self.insns@,
            last_insn: self.last_insn,
            calls: self.calls@,
            mix: self.mix@,
        }
    }
}

fn empty_rows(n: usize) -> (rows: Vec<Row>)
    ensures
        rows@ == Seq::new(n as nat, |i: int| empty_row()),
{
    let mut rows: Vec<Row> = Vec::new();
    let mut i: usize = 0;
    while i < n
        invariant
            i <= n,
            rows@ == Seq::new(i as nat, |k: int| empty_row()),
        decreases n - i,
    {
        rows.push(Row { source: 0, target: 0, count: 0, retired: 0 });
        i = i + 1;
        assert(rows@ =~= Seq::new(i as nat, |k: int| empty_row()));
    }
    rows
}

fn zeros(n: usize) -> (cells: Vec<u64>)
    ensures
        cells@ == Seq::new(n as nat, |i: int| 0u64),
{
    let mut cells: Vec<u64> = Vec::new();
    let mut i: usize = 0;
    while i < n
        invariant
            i <= n,
            cells@ == Seq::new(i as nat, |k: int| 0u64),
        decreases n - i,
    {
        cells.push(0);
        i = i + 1;
        assert(cells@ =~= Seq::new(i as nat, |k: int| 0u64));
    }
    cells
}

/// `2^n`, as a divisor: whether a tick is the one to sample.
pub open spec fn divides(tick: u64, n: int) -> bool
    decreases n,
{
    if n <= 0 {
        true
    } else {
        tick % 2 == 0 && divides((tick / 2) as u64, n - 1)
    }
}

fn is_sampled(tick: u64, shift: u32) -> (r: bool)
    ensures
        r == divides(tick, shift as int),
    decreases shift,
{
    if shift == 0 {
        true
    } else {
        tick % 2 == 0 && is_sampled(tick / 2, shift - 1)
    }
}

/// The share of `part` in `n` parts of `retired`.
pub open spec fn share(retired: u64, part: u16, n: u32) -> u64 {
    let s = retired as int * part as int / (n as int);
    if s <= u64::MAX {
        s as u64
    } else {
        u64::MAX
    }
}

fn share_of(retired: u64, part: u16, n: u32) -> (s: u64)
    requires
        n > 0,
    ensures
        s == share(retired, part, n),
{
    assert(0 <= retired as int * part as int <= 0xffff_ffff_ffff_ffff * 0xffff) by (nonlinear_arith)
        requires
            retired <= 0xffff_ffff_ffff_ffff,
            part <= 0xffff,
    ;
    let s: u128 = retired as u128 * part as u128 / n as u128;
    assert(s == retired as int * part as int / (n as int));
    if s <= u64::MAX as u128 {
        s as u64
    } else {
        u64::MAX
    }
}

impl ProfileView {
    pub open spec fn wf(self) -> bool {
        &&& self.dispatches.len() == DPROF_N
        &&& self.edges.len() == DPROF_N
        &&& self.insns.len() == IHIST_N
        &&& self.calls.len() == 4
        &&& self.mix.len() == 23
        &&& self.sample_shift <= 20
        &&& self.last_insn matches Some(i) ==> i < IHIST_N
    }

    /// A profile that is off and empty.
    pub open spec fn fresh() -> ProfileView {
        ProfileView {
            on: false,
            sample_shift: 0,
            tick: 0,
            dispatches: Seq::new(DPROF_N as nat, |i: int| empty_row()),
            edges: Seq::new(DPROF_N as nat, |i: int| empty_row()),
            insns: Seq::new(IHIST_N as nat, |i: int| empty_row()),
            last_insn: None,
            calls: Seq::new(4, |i: int| 0u64),
            mix: Seq::new(23, |i: int| 0u64),
        }
    }

    /// The profile with nothing in it but what instructions were given up on.
    pub open spec fn cleared(self) -> ProfileView {
        ProfileView {
            tick: 0,
            dispatches: Seq::new(DPROF_N as nat, |i: int| empty_row()),
            edges: Seq::new(DPROF_N as nat, |i: int| empty_row()),
            calls: Seq::new(4, |i: int| 0u64),
            mix: Seq::new(23, |i: int| 0u64),
            ..self
        }
    }
}

impl Profile {
    pub open spec fn wf(&self) -> bool {
        self@.wf()
    }

    pub fn new() -> (p: Profile)
        ensures
            p.wf(),
            p@ == ProfileView::fresh(),
    {
        let p = Profile {
            on: false,
            sample_shift: 0,
            tick: 0,
            dispatches: empty_rows(DPROF_N),
            edges: empty_rows(DPROF_N),
            insns: empty_rows(IHIST_N),
            last_insn: None,
            calls: [0, 0, 0, 0],
            mix: zeros(23),
        };
        assert(p@ =~= ProfileView::fresh());
        p
    }

    /// Turn the profile on, from nothing, or off.
    pub fn dprof_set(&mut self, on: u32)
        requires
            old(self).wf(),
        ensures
            final(self).wf(),
            final(self)@ == if on != 0 {
                ProfileView { on: true, ..old(self)@.cleared() }
            } else {
                ProfileView { on: false, ..old(self)@ }
            },
    {
        self.on = on != 0;
        if on != 0 {
            self.tick = 0;
            self.dispatches = empty_rows(DPROF_N);
            self.edges = empty_rows(DPROF_N);
            self.calls = [0, 0, 0, 0];
            self.mix = zeros(23);
            assert(self@.calls =~= Seq::new(4, |i: int| 0u64));
        }
        assert(self@ =~= if on != 0 {
            ProfileView { on: true, ..old(self)@.cleared() }
        } else {
            ProfileView { on: false, ..old(self)@ }
        });
    }

    /// Whether dispatches are profiled.
    pub fn is_on(&self) -> (r: bool)
        ensures
            r == self@.on,
    {
        self.on
    }

    pub fn dprof_set_sample_shift(&mut self, shift: u32)
        requires
            old(self).wf(),
        ensures
            final(self).wf(),
            final(self)@ == (ProfileView {
                sample_shift: if shift < 20 {
                    shift
                } else {
                    20
                },
                ..old(self)@
            }),
    {
        self.sample_shift = if shift < 20 {
            shift
        } else {
            20
        };
    }

    /// Count a dispatch, while the profile is on. Says whether it is to be
    /// sampled.
    pub fn sample(&mut self) -> (r: bool)
        requires
            old(self).wf(),
        ensures
            final(self).wf(),
            final(self)@ == if old(self)@.on {
                ProfileView { tick: summed(old(self)@.tick, 1), ..old(self)@ }
            } else {
                old(self)@
            },
            r == (old(self)@.on && divides(
                final(self)@.tick,
                old(self)@.sample_shift as int,
            )),
    {
        if !self.on {
            return false;
        }
        self.tick = self.tick.wrapping_add(1);
        is_sampled(self.tick, self.sample_shift)
    }

    /// Note a sampled dispatch.
    pub fn note_dispatch(&mut self, pc: u64, next: u64, retired: u64)
        requires
            old(self).wf(),
        ensures
            final(self).wf(),
            ({
                let d = pc_row(pc) as int;
                let e = edge_row(pc, next) as int;
                final(self)@ == (ProfileView {
                    dispatches: old(self)@.dispatches.update(
                        d,
                        hit(old(self)@.dispatches[d], pc, 0, retired),
                    ),
                    edges: old(self)@.edges.update(
                        e,
                        hit(old(self)@.edges[e], pc, next, retired),
                    ),
                    ..old(self)@
                })
            }),
    {
        let d: u64 = ((pc >> 1) ^ (pc >> 13)) & 0x1fff;
        let e: u64 = ((pc >> 1) ^ (pc >> 13) ^ (next >> 3) ^ (next >> 17)) & 0x1fff;
        assert(((pc >> 1) ^ (pc >> 13)) & 0x1fff < 8192) by (bit_vector);
        assert(((pc >> 1) ^ (pc >> 13) ^ (next >> 3) ^ (next >> 17)) & 0x1fff < 8192)
            by (bit_vector);
        let row: Row = self.dispatches[d as usize];
        self.dispatches.set(d as usize, hit_row(row, pc, 0, retired));
        let row: Row = self.edges[e as usize];
        self.edges.set(e as usize, hit_row(row, pc, next, retired));
    }

    /// A field of a row of the dispatch profile: 0 = pc, 1 = dispatches,
    /// 2 = retired instructions.
    pub fn dprof_get(&self, which: u32, i: u32) -> (v: u64)
        requires
            self.wf(),
        ensures
            ({
                let row = self@.dispatches[i as int % DPROF_N as int];
                v == if which == 0 {
                    row.source
                } else if which == 1 {
                    row.count
                } else {
                    row.retired
                }
            }),
    {
        let row: Row = self.dispatches[i as usize % DPROF_N];
        match which {
            0 => row.source,
            1 => row.count,
            _ => row.retired,
        }
    }

    /// A field of a row of the edge profile: 0 = source pc, 1 = target pc,
    /// 2 = transitions, 3 = retired instructions.
    pub fn eprof_get(&self, which: u32, i: u32) -> (v: u64)
        requires
            self.wf(),
        ensures
            ({
                let row = self@.edges[i as int % DPROF_N as int];
                v == if which == 0 {
                    row.source
                } else if which == 1 {
                    row.target
                } else if which == 2 {
                    row.count
                } else {
                    row.retired
                }
            }),
    {
        let row: Row = self.edges[i as usize % DPROF_N];
        match which {
            0 => row.source,
            1 => row.target,
            2 => row.count,
            _ => row.retired,
        }
    }

    /// Note the instruction where compiled execution yields.
    pub fn note_insn(&mut self, insn: u32)
        requires
            old(self).wf(),
        ensures
            final(self).wf(),
            ({
                let key = insn_key(insn);
                let h = key_row(key) as int;
                let row = old(self)@.insns[h];
                final(self)@ == if row.source != key && row.count != 0 {
                    old(self)@
                } else {
                    ProfileView {
                        insns: old(self)@.insns.update(
                            h,
                            Row {
                                source: key as u64,
                                count: summed(row.count, 1),
                                ..row
                            },
                        ),
                        last_insn: Some(h as usize),
                        ..old(self)@
                    }
                }
            }),
    {
        let key: u32 = if insn & 3 != 3 {
            insn & 0xffff
        } else {
            insn & 0xfff0_707f
        };
        let product: u32 = (key ^ (key >> 13)).wrapping_mul(0x9e37_79b9);
        let h: u32 = (product >> 18) & 0x3ff;
        assert((product >> 18) & 0x3ff < 1024) by (bit_vector);
        let row: Row = self.insns[h as usize];
        if row.source != key as u64 && row.count != 0 {
            return;
        }
        self.insns.set(
            h as usize,
            Row { source: key as u64, count: row.count.wrapping_add(1), ..row },
        );
        self.last_insn = Some(h as usize);
    }

    /// Charge an interpreted stretch to the instruction where compiled execution
    /// yielded, while the profile is on.
    pub fn charge_stretch(&mut self, insns: u64)
        requires
            old(self).wf(),
        ensures
            final(self).wf(),
            final(self)@ == match old(self)@.last_insn {
                Some(h) => if old(self)@.on {
                    ProfileView {
                        insns: old(self)@.insns.update(
                            h as int,
                            Row {
                                retired: summed(old(self)@.insns[h as int].retired, insns),
                                ..old(self)@.insns[h as int]
                            },
                        ),
                        last_insn: None,
                        ..old(self)@
                    }
                } else {
                    old(self)@
                },
                None => old(self)@,
            },
    {
        match self.last_insn {
            Some(h) => {
                if self.on {
                    let row: Row = self.insns[h];
                    self.insns.set(h, Row { retired: row.retired.wrapping_add(insns), ..row });
                    self.last_insn = None;
                }
            },
            None => {},
        }
    }

    /// A field of a row of the instruction histogram: 0 = encoding, 1 = hits,
    /// 2 = instructions charged.
    pub fn ihist_get(&self, which: u32, i: u32) -> (v: u64)
        requires
            self.wf(),
        ensures
            ({
                let row = self@.insns[i as int % IHIST_N as int];
                v == if which == 0 {
                    row.source
                } else if which == 1 {
                    row.count
                } else {
                    row.retired
                }
            }),
    {
        let row: Row = self.insns[i as usize % IHIST_N];
        match which {
            0 => row.source,
            1 => row.count,
            _ => row.retired,
        }
    }

    /// Note a call of compiled code, and attribute what a trace retired to its
    /// static mix.
    pub fn note_call(&mut self, region: bool, block: Option<JitBlock>, retired: u64)
        requires
            old(self).wf(),
        ensures
            final(self).wf(),
            ({
                let at = if region {
                    2
                } else {
                    0
                };
                final(self)@ == (ProfileView {
                    calls: old(self)@.calls.update(
                        at,
                        summed(old(self)@.calls[at], 1),
                    ).update(at + 1, summed(old(self)@.calls[at + 1], retired)),
                    mix: match block {
                        Some(block) => if !region && block.n != 0 {
                            attributed(old(self)@.mix, block, retired)
                        } else {
                            old(self)@.mix
                        },
                        None => old(self)@.mix,
                    },
                    ..old(self)@
                })
            }),
    {
        let at: usize = if region {
            2
        } else {
            0
        };
        let (n, insns): (u64, u64) = (self.calls[at], self.calls[at + 1]);
        self.calls[at] = n.wrapping_add(1);
        self.calls[at + 1] = insns.wrapping_add(retired);
        assert(self@.calls =~= old(self)@.calls.update(
            at as int,
            summed(old(self)@.calls[at as int], 1),
        ).update(at + 1, summed(old(self)@.calls[at + 1], retired)));
        if region {
            return;
        }
        match block {
            Some(block) => {
                if block.n != 0 {
                    attribute(&mut self.mix, block, retired);
                }
            },
            None => {},
        }
    }

    /// Calls and instructions of blocks, then of region functions.
    pub fn call_count(&self, i: usize) -> (v: u64)
        requires
            self.wf(),
            i < 4,
        ensures
            v == self@.calls[i as int],
    {
        self.calls[i]
    }

    /// Instructions of traces by kind.
    pub fn mix_count(&self, i: usize) -> (v: u64)
        requires
            self.wf(),
            i < 23,
        ensures
            v == self@.mix[i as int],
    {
        self.mix[i]
    }
}

/// The share of the `i`-th kind in what a trace retired: the first kind gets
/// what the other four of the mix leave.
pub open spec fn kind_share(block: JitBlock, retired: u64, i: int) -> u64 {
    if i == 0 {
        let others = share(retired, block.mix@[1], block.n) + share(
            retired,
            block.mix@[2],
            block.n,
        ) + share(retired, block.mix@[3], block.n) + share(retired, block.mix@[4], block.n);
        if others < retired {
            (retired - others) as u64
        } else {
            0
        }
    } else if i < 5 {
        share(retired, block.mix@[i], block.n)
    } else if i < 15 {
        share(retired, block.mem@[i - 5], block.n)
    } else if i < 18 {
        share(retired, block.control@[i - 15], block.n)
    } else {
        share(retired, block.alu@[i - 18], block.n)
    }
}

/// The instructions by kind after a trace retired `retired`.
pub open spec fn attributed(mix: Seq<u64>, block: JitBlock, retired: u64) -> Seq<u64> {
    Seq::new(23, |i: int| summed(mix[i], kind_share(block, retired, i)))
}

fn kind_count(block: &JitBlock, retired: u64, i: usize) -> (v: u64)
    requires
        i < 23,
        block.n > 0,
    ensures
        v == kind_share(*block, retired, i as int),
{
    if i == 0 {
        let a: u128 = share_of(retired, block.mix[1], block.n) as u128;
        let b: u128 = share_of(retired, block.mix[2], block.n) as u128;
        let c: u128 = share_of(retired, block.mix[3], block.n) as u128;
        let d: u128 = share_of(retired, block.mix[4], block.n) as u128;
        let others: u128 = a + b + c + d;
        if others < retired as u128 {
            retired - others as u64
        } else {
            0
        }
    } else if i < 5 {
        share_of(retired, block.mix[i], block.n)
    } else if i < 15 {
        share_of(retired, block.mem[i - 5], block.n)
    } else if i < 18 {
        share_of(retired, block.control[i - 15], block.n)
    } else {
        share_of(retired, block.alu[i - 18], block.n)
    }
}

fn attribute(mix: &mut Vec<u64>, block: JitBlock, retired: u64)
    requires
        old(mix)@.len() == 23,
        block.n > 0,
    ensures
        final(mix)@ == attributed(old(mix)@, block, retired),
{
    let mut i: usize = 0;
    while i < 23
        invariant
            i <= 23,
            block.n > 0,
            old(mix)@.len() == 23,
            mix@.len() == 23,
            forall|k: int|
                0 <= k < i ==> #[trigger] mix@[k] == attributed(old(mix)@, block, retired)[k],
            forall|k: int| i <= k < 23 ==> #[trigger] mix@[k] == old(mix)@[k],
        decreases 23 - i,
    {
        let v: u64 = mix[i];
        mix.set(i, v.wrapping_add(kind_count(&block, retired, i)));
        i = i + 1;
    }
    assert(mix@ =~= attributed(old(mix)@, block, retired));
}

// ---- module sizes --------------------------------------------------------

/// Counters of generated modules. Mode bits: 1 = memory paths, 2 = register
/// boundaries, 4 = size only, 8 = register stress.
pub struct ModuleProfile {
    mode: u32,
    cells: Vec<u64>,
}

/// The state of a [`ModuleProfile`].
#[verifier::ext_equal]
pub struct ModuleProfileView {
    pub mode: u32,
    pub cells: Seq<u64>,
}

impl View for ModuleProfile {
    type V = ModuleProfileView;

    closed spec fn view(&self) -> ModuleProfileView {
        ModuleProfileView { mode: self.mode, cells: self.cells@ }
    }
}

/// Which of four sizes a module has.
pub open spec fn size_class(len: u64) -> int {
    if len <= 1024 {
        0
    } else if len <= 4096 {
        1
    } else if len <= 16384 {
        2
    } else {
        3
    }
}

/// The offsets, in bytes, of the cells that generated code counts in: five for
/// memory paths, twelve for register boundaries.
pub open spec fn cell_offset(i: int) -> int {
    if i < 9 {
        8 * i
    } else {
        152 + 8 * (i - 9)
    }
}

impl ModuleProfile {
    pub open spec fn wf(&self) -> bool {
        self@.cells.len() == MEMPROF_N
    }

    pub fn new() -> (p: ModuleProfile)
        ensures
            p.wf(),
            p@.mode == 0,
            p@.cells == Seq::new(MEMPROF_N as nat, |i: int| 0u64),
    {
        ModuleProfile { mode: 0, cells: zeros(MEMPROF_N) }
    }

    /// Set the mode and clear the counters.
    pub fn memprof_set(&mut self, mode: u32)
        ensures
            final(self).wf(),
            final(self)@.mode == mode,
            final(self)@.cells == Seq::new(MEMPROF_N as nat, |i: int| 0u64),
    {
        self.mode = mode;
        self.cells = zeros(MEMPROF_N);
    }

    pub fn memprof_get(&self, index: u32) -> (v: u64)
        requires
            self.wf(),
        ensures
            v == self@.cells[index as int % MEMPROF_N as int],
    {
        self.cells[index as usize % MEMPROF_N]
    }

    /// Whether generated code is to stress its registers.
    pub fn stresses_registers(&self) -> (r: bool)
        ensures
            r == (self@.mode / 8 % 2 == 1),
    {
        self.mode / 8 % 2 == 1
    }

    /// Whether register boundaries are profiled.
    pub fn profiles_registers(&self) -> (r: bool)
        ensures
            r == (self@.mode / 2 % 2 == 1),
    {
        self.mode / 2 % 2 == 1
    }

    /// The addresses of the cells that generated code counts in, given the
    /// address of the first; zero for those that are off. None where all are.
    pub fn layout(&self, base: u32) -> (addrs: Option<Vec<u32>>)
        requires
            base <= u32::MAX - 208,
        ensures
            addrs is Some <==> self@.mode % 4 != 0,
            addrs matches Some(a) ==> a@ == Seq::new(
                17,
                |i: int|
                    if (if i < 5 {
                        self@.mode % 2 == 1
                    } else {
                        self@.mode / 2 % 2 == 1
                    }) {
                        (base + cell_offset(i)) as u32
                    } else {
                        0u32
                    },
            ),
    {
        if self.mode % 4 == 0 {
            return None;
        }
        let mem: bool = self.mode % 2 == 1;
        let regs: bool = self.mode / 2 % 2 == 1;
        let ghost all = Seq::new(
            17,
            |i: int|
                if (if i < 5 {
                    self@.mode % 2 == 1
                } else {
                    self@.mode / 2 % 2 == 1
                }) {
                    (base + cell_offset(i)) as u32
                } else {
                    0u32
                },
        );
        let mut addrs: Vec<u32> = Vec::new();
        let mut i: u32 = 0;
        assert(addrs@ =~= all.subrange(0, 0));
        while i < 17
            invariant
                i <= 17,
                base <= u32::MAX - 208,
                mem == (self@.mode % 2 == 1),
                regs == (self@.mode / 2 % 2 == 1),
                all == Seq::new(
                    17,
                    |i: int|
                        if (if i < 5 {
                            self@.mode % 2 == 1
                        } else {
                            self@.mode / 2 % 2 == 1
                        }) {
                            (base + cell_offset(i)) as u32
                        } else {
                            0u32
                        },
                ),
                addrs@ == all.subrange(0, i as int),
            decreases 17 - i,
        {
            let offset: u32 = if i < 9 {
                8 * i
            } else {
                152 + 8 * (i - 9)
            };
            let on: bool = if i < 5 {
                mem
            } else {
                regs
            };
            addrs.push(
                if on {
                    base + offset
                } else {
                    0
                },
            );
            i = i + 1;
            assert(addrs@ =~= all.subrange(0, i as int));
        }
        assert(addrs@ =~= all);
        Some(addrs)
    }

    /// Note a generated module, while sizes are profiled.
    pub fn note_module(&mut self, len: u64)
        requires
            old(self).wf(),
        ensures
            final(self).wf(),
            final(self)@ == if old(self)@.mode / 4 % 2 == 1 {
                let c = old(self)@.cells;
                let k = size_class(len);
                ModuleProfileView {
                    cells: c.update(9, summed(c[9], len)).update(10, summed(c[10], 1)).update(
                        11 + k,
                        summed(c[11 + k], 1),
                    ).update(15 + k, summed(c[15 + k], len)),
                    ..old(self)@
                }
            } else {
                old(self)@
            },
    {
        if self.mode / 4 % 2 != 1 {
            return;
        }
        let class: usize = if len <= 1024 {
            0
        } else if len <= 4096 {
            1
        } else if len <= 16384 {
            2
        } else {
            3
        };
        self.bump_cell(9, len);
        self.bump_cell(10, 1);
        self.bump_cell(11 + class, 1);
        self.bump_cell(15 + class, len);
    }

    fn bump_cell(&mut self, i: usize, by: u64)
        requires
            old(self).wf(),
            i < MEMPROF_N,
        ensures
            final(self).wf(),
            final(self)@ == (ModuleProfileView {
                cells: old(self)@.cells.update(
                    i as int,
                    summed(old(self)@.cells[i as int], by),
                ),
                ..old(self)@
            }),
    {
        let v: u64 = self.cells[i];
        self.cells.set(i, v.wrapping_add(by));
    }
}

} // verus!
