//! The knobs of the compiler, and the rules that read nothing but them.

use vstd::prelude::*;

verus! {

/// Compile a block after it is dispatched this many times. High enough
/// that one-shot boot code stays interpreted; low enough that compute
/// loops (dispatched millions of times) tier up quickly.
pub const JIT_ON_THRESHOLD: u32 = 64;

/// Whether TLB misses are filled inside compiled blocks.
#[derive(Clone, Copy, Debug, PartialEq, Eq, Structural)]
pub enum TlbFillPolicy {
    /// Always bail to the interpreter.
    Off,
    /// Always refill.
    On,
    /// Refill once execution has proved that first-operation TLB bails are
    /// material.
    Auto,
}

/// The knobs. Embeddings set them before boot.
#[derive(Clone, Copy, Debug, PartialEq, Eq, Structural)]
pub struct JitPolicy {
    /// Dispatches before code is compiled; the greatest number turns the
    /// compiler off.
    pub threshold: u32,
    /// Fold branchy code pages into one superblock.
    pub superblock: bool,
    /// Return regions that do not hold execution to individual blocks.
    pub demote: bool,
    /// Translation-window control: 1 uses one page, 2 forces the wide window,
    /// and 0 follows the trace level (level 0 is one page, higher levels are
    /// wide).
    pub trace_window: u32,
    /// A landed region function does not claim a pc whose individual block is a
    /// trace at least this long. 0 = functions claim everything.
    pub trace_keep_min: u32,
    /// Floor between two region builds, in retired instructions.
    pub sb_min_spacing: u64,
    pub tlb_fill: TlbFillPolicy,
    pub multi_latch: bool,
    /// Compile a block together with its proven-hot successors.
    pub batch: bool,
    /// Coalesce only entries that independently crossed the tier-up threshold.
    pub confirmed_batch: bool,
    pub confirmed_batch_target: usize,
    /// Pack a hot code page into one multi-function module.
    pub page_modules: bool,
    /// Blocks in the cache beyond which batching stops.
    pub batch_pop_cap: usize,
    /// A bound on distinct hot code pages, for callers that set it. Batching is
    /// bounded by the size of the cache and by its rate instead.
    pub batch_page_cap: usize,
    /// Batches per billion retired instructions above which batching is judged
    /// unprofitable and switched off for the run.
    pub batch_rate_cap: u64,
    /// Consecutive identical successors before a trace is recompiled with an
    /// inline cache through its terminating indirect jump.
    pub ic_trigger: u32,
    pub batch_cap: usize,
    /// Keep a batch to the page of its seed.
    pub batch_page: bool,
    pub batch_bar_shift: u32,
}

/// The settings a machine starts with.
pub open spec fn default_policy() -> JitPolicy {
    JitPolicy {
        threshold: JIT_ON_THRESHOLD,
        superblock: false,
        demote: true,
        trace_window: 1,
        trace_keep_min: 0,
        sb_min_spacing: 16_000_000,
        tlb_fill: TlbFillPolicy::Auto,
        multi_latch: true,
        batch: false,
        confirmed_batch: false,
        confirmed_batch_target: 8,
        page_modules: false,
        batch_pop_cap: 4096,
        batch_page_cap: 64,
        batch_rate_cap: 200,
        ic_trigger: 256,
        batch_cap: 32,
        batch_page: false,
        batch_bar_shift: 1,
    }
}

impl Default for JitPolicy {
    fn default() -> (p: JitPolicy)
        ensures
            p == default_policy(),
    {
        JitPolicy::new()
    }
}

impl JitPolicy {
    pub fn new() -> (p: JitPolicy)
        ensures
            p == default_policy(),
    {
        JitPolicy {
            threshold: JIT_ON_THRESHOLD,
            superblock: false,
            demote: true,
            trace_window: 1,
            trace_keep_min: 0,
            sb_min_spacing: 16_000_000,
            tlb_fill: TlbFillPolicy::Auto,
            multi_latch: true,
            batch: false,
            confirmed_batch: false,
            confirmed_batch_target: 8,
            page_modules: false,
            batch_pop_cap: 4096,
            batch_page_cap: 64,
            batch_rate_cap: 200,
            ic_trigger: 256,
            batch_cap: 32,
            batch_page: false,
            batch_bar_shift: 1,
        }
    }

    /// Whether anything is compiled.
    pub fn compiles(&self) -> (r: bool)
        ensures
            r == (self.threshold != u32::MAX),
    {
        self.threshold != u32::MAX
    }

    /// Enable/disable JIT tier-up (1/0). Disabling sets the threshold beyond
    /// any counter so blocks are never compiled — pure interpreter baseline.
    pub fn jit_set_enabled(&mut self, on: u32)
        ensures
            *final(self) == (JitPolicy {
                threshold: if on == 0 {
                    u32::MAX
                } else {
                    JIT_ON_THRESHOLD
                },
                ..*old(self)
            }),
    {
        self.threshold = if on == 0 {
            u32::MAX
        } else {
            JIT_ON_THRESHOLD
        };
    }

    /// Set the tier-up threshold for performance diagnostics.
    pub fn jit_set_threshold(&mut self, threshold: u32)
        ensures
            *final(self) == (JitPolicy {
                threshold: if threshold == 0 {
                    1
                } else {
                    threshold
                },
                ..*old(self)
            }),
    {
        self.threshold = if threshold == 0 {
            1
        } else {
            threshold
        };
    }

    pub fn sys_set_superblock(&mut self, on: u32)
        ensures
            *final(self) == (JitPolicy { superblock: on != 0, ..*old(self) }),
    {
        self.superblock = on != 0;
    }

    pub fn jit_set_demote(&mut self, on: u32)
        ensures
            *final(self) == (JitPolicy { demote: on != 0, ..*old(self) }),
    {
        self.demote = on != 0;
    }

    pub fn jit_set_trace_window(&mut self, mode: u32)
        ensures
            *final(self) == (JitPolicy {
                trace_window: if mode < 2 {
                    mode
                } else {
                    2
                },
                ..*old(self)
            }),
    {
        self.trace_window = if mode < 2 {
            mode
        } else {
            2
        };
    }

    pub fn jit_set_trace_keep_min(&mut self, v: u32)
        ensures
            *final(self) == (JitPolicy { trace_keep_min: v, ..*old(self) }),
    {
        self.trace_keep_min = v;
    }

    /// Set the floor between two region builds, in millions of instructions.
    pub fn jit_set_sb_spacing(&mut self, m_insns: u32)
        ensures
            *final(self) == (JitPolicy {
                sb_min_spacing: (m_insns * 1_000_000) as u64,
                ..*old(self)
            }),
    {
        self.sb_min_spacing = m_insns as u64 * 1_000_000;
    }

    /// Select host-filled TLB misses inside compiled blocks.
    /// `0` forces the bail-to-interpreter path, `1` forces refill, and `2`
    /// restores the adaptive product policy.
    pub fn jit_set_tlb_fill(&mut self, mode: u32)
        ensures
            *final(self) == (JitPolicy {
                tlb_fill: if mode == 0 {
                    TlbFillPolicy::Off
                } else if mode == 1 {
                    TlbFillPolicy::On
                } else {
                    TlbFillPolicy::Auto
                },
                ..*old(self)
            }),
    {
        self.tlb_fill = match mode {
            0 => TlbFillPolicy::Off,
            1 => TlbFillPolicy::On,
            _ => TlbFillPolicy::Auto,
        };
    }

    pub fn jit_set_multi_latch(&mut self, on: u32)
        ensures
            *final(self) == (JitPolicy { multi_latch: on != 0, ..*old(self) }),
    {
        self.multi_latch = on != 0;
    }

    pub fn jit_set_batch(&mut self, on: u32)
        ensures
            *final(self) == (JitPolicy { batch: on != 0, ..*old(self) }),
    {
        self.batch = on != 0;
    }

    pub fn jit_set_confirmed_batch(&mut self, on: u32)
        ensures
            *final(self) == (JitPolicy { confirmed_batch: on != 0, ..*old(self) }),
    {
        self.confirmed_batch = on != 0;
    }

    /// Set how many traces share a module: from two, because a module of one
    /// function has another interface, to sixty-four.
    pub fn jit_set_confirmed_batch_target(&mut self, target: u32)
        ensures
            *final(self) == (JitPolicy {
                confirmed_batch_target: if target < 2 {
                    2
                } else if target > 64 {
                    64
                } else {
                    target as usize
                },
                ..*old(self)
            }),
    {
        self.confirmed_batch_target = if target < 2 {
            2
        } else if target > 64 {
            64
        } else {
            target as usize
        };
    }

    pub fn jit_set_page_modules(&mut self, on: u32)
        ensures
            *final(self) == (JitPolicy { page_modules: on != 0, ..*old(self) }),
    {
        self.page_modules = on != 0;
    }

    pub fn jit_set_batch_rate_cap(&mut self, v: u32)
        ensures
            *final(self) == (JitPolicy { batch_rate_cap: v as u64, ..*old(self) }),
    {
        self.batch_rate_cap = v as u64;
    }

    pub fn jit_set_batch_page_cap(&mut self, v: u32)
        ensures
            *final(self) == (JitPolicy { batch_page_cap: v as usize, ..*old(self) }),
    {
        self.batch_page_cap = v as usize;
    }

    pub fn jit_set_batch_pop_cap(&mut self, v: u32)
        ensures
            *final(self) == (JitPolicy { batch_pop_cap: v as usize, ..*old(self) }),
    {
        self.batch_pop_cap = v as usize;
    }

    /// Set the inline-cache trigger; zero turns extension off.
    pub fn jit_set_ic_trigger(&mut self, v: u32)
        ensures
            *final(self) == (JitPolicy {
                ic_trigger: if v == 0 {
                    u32::MAX
                } else {
                    v
                },
                ..*old(self)
            }),
    {
        self.ic_trigger = if v == 0 {
            u32::MAX
        } else {
            v
        };
    }

    pub fn jit_set_batch_page(&mut self, on: u32)
        ensures
            *final(self) == (JitPolicy { batch_page: on != 0, ..*old(self) }),
    {
        self.batch_page = on != 0;
    }

    pub fn jit_set_batch_cap(&mut self, v: u32)
        ensures
            *final(self) == (JitPolicy { batch_cap: v as usize, ..*old(self) }),
    {
        self.batch_cap = v as usize;
    }

    pub fn jit_set_batch_bar_shift(&mut self, v: u32)
        ensures
            *final(self) == (JitPolicy { batch_bar_shift: v, ..*old(self) }),
    {
        self.batch_bar_shift = v;
    }

    /// Whether a trace is taken from one page only.
    pub fn single_page(&self, trace_level: u32) -> (r: bool)
        ensures
            r == (self.trace_window == 1 || (self.trace_window != 2 && trace_level == 0)),
    {
        match self.trace_window {
            1 => true,
            2 => false,
            _ => trace_level == 0,
        }
    }

    /// Switch batching off once batches are demanded too fast: more than the cap
    /// per billion retired instructions, judged after the first sixty-four.
    pub fn govern_batches(&mut self, batches: u64, insn_count: u64)
        ensures
            *final(self) == (JitPolicy {
                batch: old(self).batch && !(batches > 64 && batches / giga_insns(insn_count)
                    > old(self).batch_rate_cap),
                ..*old(self)
            }),
    {
        let mut gi: u64 = insn_count / 1_000_000_000;
        if gi == 0 {
            gi = 1;
        }
        if batches > 64 && batches / gi > self.batch_rate_cap {
            self.batch = false;
        }
    }
}

/// Billions of instructions, at least one.
pub open spec fn giga_insns(insn_count: u64) -> u64 {
    if insn_count < 1_000_000_000 {
        1
    } else {
        insn_count / 1_000_000_000
    }
}

} // verus!
