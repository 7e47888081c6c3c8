//! Diagnostic counters of the compiler.

use vstd::prelude::*;
use vstd::std_specs::iter::IteratorSpec;
use std::collections::HashSet;
use crate::jit::block::{page_base, page_of};
use crate::jit::code::CodeView;
use crate::jit::index::PageKey;
use crate::jit::pages::list_at;
use crate::jit::profile::{summed, Profile, ProfileView};
use crate::jit::queue::{kind_count, JitQueue, QueueView};
use crate::jit::state::{JitState, JitView};

verus! {

broadcast use vstd::std_specs::hash::group_hash_axioms;

/// How many numbers there are.
pub const STATS: usize = 93;

/// What is counted.
#[derive(Debug, Clone, Copy, PartialEq, Eq, Structural)]
pub enum Counter {
    JitRetired,
    JitDispatches,
    SliceCalls,
    SliceInsns,
    CopyChunks,
    SbTrigger,
    SbXlateFail,
    SbIssued,
    SbLanded,
    SbStale,
    ZeroRetire,
    SbIndiv,
    ZrNx,
    ZrFrm,
    ZrFs,
    DropSelf,
    DropRegion,
    DirtyEvents,
    DirtyDropped,
    SbEntriesIn,
    SbReplaced,
    TraceSbInstall,
    TraceIndiv,
    TraceSeed,
    TraceEntry,
    TlbFills,
    SbExtIssued,
    SbExitSampled,
    SbBuildMs,
    SbExitNomap,
    SbExitInregion,
    SbExtDeferCool,
    SbExtNoTarget,
    SbExtPushed,
    SbExtDrainVisits,
    SbExtDrainNomatch,
    SbDemoted,
    Batches,
    BatchMembers,
    IcExtends,
    PageModulesIssued,
    PageModulesLanded,
    PageModuleMembers,
}

impl Counter {
    /// The number that a counter is asked for by.
    pub open spec fn number(self) -> int {
        match self {
            Counter::JitRetired => 0,
            Counter::JitDispatches => 1,
            Counter::SliceCalls => 4,
            Counter::SliceInsns => 5,
            Counter::CopyChunks => 8,
            Counter::SbTrigger => 10,
            Counter::SbXlateFail => 11,
            Counter::SbIssued => 12,
            Counter::SbLanded => 13,
            Counter::SbStale => 14,
            Counter::ZeroRetire => 15,
            Counter::SbIndiv => 16,
            Counter::ZrNx => 18,
            Counter::ZrFrm => 19,
            Counter::ZrFs => 20,
            Counter::DropSelf => 21,
            Counter::DropRegion => 22,
            Counter::DirtyEvents => 23,
            Counter::DirtyDropped => 24,
            Counter::SbEntriesIn => 25,
            Counter::SbReplaced => 26,
            Counter::TraceSbInstall => 27,
            Counter::TraceIndiv => 28,
            Counter::TraceSeed => 29,
            Counter::TraceEntry => 30,
            Counter::TlbFills => 31,
            Counter::SbExtIssued => 32,
            Counter::SbExitSampled => 33,
            Counter::SbBuildMs => 34,
            Counter::SbExitNomap => 35,
            Counter::SbExitInregion => 36,
            Counter::SbExtDeferCool => 37,
            Counter::SbExtNoTarget => 38,
            Counter::SbExtPushed => 39,
            Counter::SbExtDrainVisits => 40,
            Counter::SbExtDrainNomatch => 41,
            Counter::SbDemoted => 42,
            Counter::Batches => 43,
            Counter::BatchMembers => 44,
            Counter::IcExtends => 45,
            Counter::PageModulesIssued => 87,
            Counter::PageModulesLanded => 88,
            Counter::PageModuleMembers => 89,
        }
    }

    /// The number that a counter is asked for by.
    pub fn index(self) -> (i: usize)
        ensures
            i == self.number(),
            i < STATS,
    {
        match self {
            Counter::JitRetired => 0,
            Counter::JitDispatches => 1,
            Counter::SliceCalls => 4,
            Counter::SliceInsns => 5,
            Counter::CopyChunks => 8,
            Counter::SbTrigger => 10,
            Counter::SbXlateFail => 11,
            Counter::SbIssued => 12,
            Counter::SbLanded => 13,
            Counter::SbStale => 14,
            Counter::ZeroRetire => 15,
            Counter::SbIndiv => 16,
            Counter::ZrNx => 18,
            Counter::ZrFrm => 19,
            Counter::ZrFs => 20,
            Counter::DropSelf => 21,
            Counter::DropRegion => 22,
            Counter::DirtyEvents => 23,
            Counter::DirtyDropped => 24,
            Counter::SbEntriesIn => 25,
            Counter::SbReplaced => 26,
            Counter::TraceSbInstall => 27,
            Counter::TraceIndiv => 28,
            Counter::TraceSeed => 29,
            Counter::TraceEntry => 30,
            Counter::TlbFills => 31,
            Counter::SbExtIssued => 32,
            Counter::SbExitSampled => 33,
            Counter::SbBuildMs => 34,
            Counter::SbExitNomap => 35,
            Counter::SbExitInregion => 36,
            Counter::SbExtDeferCool => 37,
            Counter::SbExtNoTarget => 38,
            Counter::SbExtPushed => 39,
            Counter::SbExtDrainVisits => 40,
            Counter::SbExtDrainNomatch => 41,
            Counter::SbDemoted => 42,
            Counter::Batches => 43,
            Counter::BatchMembers => 44,
            Counter::IcExtends => 45,
            Counter::PageModulesIssued => 87,
            Counter::PageModulesLanded => 88,
            Counter::PageModuleMembers => 89,
        }
    }
}

/// The counters.
pub struct Counters {
    cells: Vec<u64>,
}

impl View for Counters {
    type V = Seq<u64>;

    closed spec fn view(&self) -> Seq<u64> {
        self.cells@
    }
}

impl Counters {
    pub open spec fn wf(&self) -> bool {
        self@.len() == STATS
    }

    pub fn new() -> (c: Counters)
        ensures
            c.wf(),
            c@ == Seq::new(STATS as nat, |i: int| 0u64),
    {
        let mut cells: Vec<u64> = Vec::new();
        let mut i: usize = 0;
        while i < STATS
            invariant
                i <= STATS,
                cells@ == Seq::new(i as nat, |k: int| 0u64),
            decreases STATS - i,
        {
            cells.push(0);
            i = i + 1;
            assert(cells@ =~= Seq::new(i as nat, |k: int| 0u64));
        }
        Counters { cells }
    }

    /// Count `by` more.
    pub fn count(&mut self, counter: Counter, by: u64)
        requires
            old(self).wf(),
        ensures
            final(self).wf(),
            final(self)@ == old(self)@.update(
                counter.number(),
                summed(old(self)@[counter.number()], by),
            ),
    {
        let i: usize = counter.index();
        let v: u64 = self.cells[i];
        self.cells.set(i, v.wrapping_add(by));
    }

    /// Set a counter that is measured elsewhere, or that starts over.
    pub fn set(&mut self, counter: Counter, v: u64)
        requires
            old(self).wf(),
        ensures
            final(self).wf(),
            final(self)@ == old(self)@.update(counter.number(), v),
    {
        self.cells.set(counter.index(), v);
    }
}

/// The pages that compiled code lies on, in whatever address space.
pub open spec fn code_pages(code: CodeView) -> Set<u64> {
    code.cache.dom().map(|pc: u64| page_base(pc))
}

/// A number of the statistics.
pub open spec fn stat_of(
    v: JitView,
    page_lists: nat,
    queue: QueueView,
    profile: ProfileView,
    counters: Seq<u64>,
    which: u32,
) -> nat {
    if which == 3 {
        v.code.cache.dom().len()
    } else if which == 17 {
        queue.pending.len()
    } else if 46 <= which < 50 {
        profile.calls[which - 46] as nat
    } else if 50 <= which < 73 {
        profile.mix[which - 50] as nat
    } else if which == 73 {
        v.code.table.live.len()
    } else if which == 74 {
        v.code.table.peak as nat
    } else if which == 75 {
        v.code.table.retired as nat
    } else if which == 76 {
        v.evictions.owners as nat
    } else if which == 77 {
        v.evictions.slots as nat
    } else if which == 78 {
        queue.capacity_rejections as nat
    } else if 79 <= which < 82 {
        kind_count(queue.pending, which - 79, queue.pending.len() as int) as nat
    } else if which == 82 {
        page_lists
    } else if which == 83 {
        code_pages(v.code).len()
    } else if which == 84 {
        v.heat.hot.dom().len()
    } else if which == 85 {
        v.bails.total as nat
    } else if which == 86 {
        if v.bails.auto_enabled {
            1
        } else {
            0
        }
    } else if which == 90 {
        v.stage.len()
    } else if which == 91 {
        v.coverage.dom().len()
    } else if which == 92 {
        v.evictions.cooled_entries as nat
    } else if which < STATS {
        counters[which as int] as nat
    } else {
        0
    }
}

impl JitState {
    fn count_code_pages(&self) -> (n: usize)
        ensures
            n == code_pages(self@.code).len(),
    {
        let mut pages: HashSet<u64> = HashSet::new();
        for pc in it: self.code.cache.keys()
            invariant
                forall|page: u64| #[trigger]
                    pages@.contains(page) <==> exists|i: int|
                        0 <= i < it.index() && page_base(*#[trigger] it.seq()[i]) == page,
                it.seq() == vstd::std_specs::hash::spec_keys_iter(&self.code.cache).remaining(),
        {
            pages.insert(page_of(*pc));
        }
        proof {
            let keys = vstd::std_specs::hash::spec_keys_iter(&self.code.cache).remaining();
            vstd::std_specs::hash::axiom_spec_keys_iter(&self.code.cache);
            let plain = keys.unref();
            let all = code_pages(self@.code);
            assert forall|page: u64| pages@.contains(page) <==> all.contains(page) by {
                if pages@.contains(page) {
                    let i = choose|i: int|
                        0 <= i < keys.len() && page_base(*#[trigger] keys[i]) == page;
                    assert(plain[i] == *keys[i]);
                    assert(plain.to_set().contains(plain[i]));
                    assert(self@.code.cache.dom().contains(*keys[i]));
                }
                if all.contains(page) {
                    let pc = choose|pc: u64|
                        self@.code.cache.dom().contains(pc) && page_base(pc) == page;
                    assert(plain.to_set().contains(pc));
                    let i = choose|i: int| 0 <= i < plain.len() && plain[i] == pc;
                    assert(page_base(*keys[i]) == page);
                }
            }
            assert(pages@ =~= all);
        }
        pages.len()
    }

    /// Return one JIT diagnostic number.
    pub fn jit_stat(&self, queue: &JitQueue, profile: &Profile, counters: &Counters, which: u32) -> (v:
        u64)
        requires
            queue.wf(),
            profile.wf(),
            counters.wf(),
        ensures
            v == stat_of(
                self@,
                self.code.page_blocks.lists().dom().len(),
                queue@,
                profile@,
                counters@,
                which,
            ),
    {
        match which {
            3 => self.code.cache.len() as u64,
            17 => queue.in_flight() as u64,
            46 | 47 | 48 | 49 => profile.call_count(which as usize - 46),
            73 => self.code.table.live_count() as u64,
            74 => self.code.table.counts().0,
            75 => self.code.table.counts().1,
            76 => self.evictions.owners,
            77 => self.evictions.slots,
            78 => queue.rejections(),
            79 => queue.kinds().0,
            80 => queue.kinds().1,
            81 => queue.kinds().2,
            82 => self.code.page_blocks.len() as u64,
            83 => self.count_code_pages() as u64,
            84 => self.heat.hot_count() as u64,
            85 => self.bails.counts().0,
            86 => if self.bails.counts().1 {
                1
            } else {
                0
            },
            90 => self.confirmed_stage.len() as u64,
            91 => self.confirmed_coverage.len() as u64,
            92 => self.evictions.cooled_entries,
            _ => if 50 <= which && which < 73 {
                profile.mix_count(which as usize - 50)
            } else if (which as usize) < STATS {
                counters.cells[which as usize]
            } else {
                0
            },
        }
    }

    /// Diagnostic: superblock state of a code page — bit0 superblocked,
    /// bit1 pending, bits 8.. = discovered hot entry count, bits 24..31 =
    /// superblock compiles, 32..39 = uncovered hot pcs since.
    pub fn sb_debug(&self, aspace: u64, vpage: u64) -> (v: u64)
        ensures
            ({
                let key = (aspace, vpage);
                let claims = self@.pages.claims;
                let a = if claims.superblocked.contains(key) {
                    1u64
                } else {
                    0
                };
                let b = if claims.pending.contains_key(key) {
                    2u64
                } else {
                    0
                };
                let n = list_at(self@.pages.entries, key).len() as u64;
                let c = (self@.pages.build_of(key).compiles % 256) as u64;
                let m = (self@.pages.missed_of(key) % 256) as u64;
                v == a | b | (n << 8) | (c << 24) | (m << 32)
            }),
    {
        let key: PageKey = (aspace, vpage);
        let a: u64 = if self.pages.superblocked.contains_key(&key) {
            1
        } else {
            0
        };
        let b: u64 = if self.pages.pending_superblocks.contains_key(&key) {
            2
        } else {
            0
        };
        let n: u64 = match self.pages.page_entries.get(&key) {
            Some(list) => list.len() as u64,
            None => 0,
        };
        let c: u64 = (self.pages.build_of(&key).compiles % 256) as u64;
        let m: u64 = (self.pages.missed_of(&key) % 256) as u64;
        a | b | (n << 8) | (c << 24) | (m << 32)
    }

    /// Diagnostic for ONE pc: an entry of a region function (3), another cached
    /// entry (1), blacklisted (2), absent (0).
    pub fn entry_kind(&self, pc: u64) -> (kind: u64)
        ensures
            kind == if !self@.code.cache.contains_key(pc) {
                0u64
            } else {
                match self@.code.cache[pc] {
                    Some(b) => if b.idx < 0 {
                        2
                    } else if b.n == 0 {
                        3
                    } else {
                        1
                    },
                    None => 2,
                }
            },
    {
        match self.code.entry(pc) {
            Some(Some(b)) => if b.idx < 0 {
                2
            } else if b.n == 0 {
                3
            } else {
                1
            },
            Some(None) => 2,
            None => 0,
        }
    }
}

/// What an analysis of a page's superblock asks for.
pub open spec fn loops_among(leaders: Seq<(u64, bool)>, n: int) -> nat
    decreases n,
{
    if n <= 0 {
        0
    } else {
        loops_among(leaders, n - 1) + if leaders[n - 1].1 {
            1nat
        } else {
            0
        }
    }
}

/// How many of the first `n` seeds are leaders that head no loop.
pub open spec fn surviving(seeds: Seq<(u64, bool)>, leaders: Seq<(u64, bool)>, n: int) -> nat
    decreases n,
{
    if n <= 0 {
        0
    } else {
        surviving(seeds, leaders, n - 1) + if is_leader(leaders, seeds[n - 1].0) && !seeds[n - 1].1 {
            1nat
        } else {
            0
        }
    }
}

/// Whether a pc is a leader.
pub open spec fn is_leader(leaders: Seq<(u64, bool)>, pc: u64) -> bool {
    exists|k: int| 0 <= k < leaders.len() && (#[trigger] leaders[k]).0 == pc
}

fn count_loops(list: &[(u64, bool)]) -> (n: u64)
    ensures
        n == loops_among(list@, list@.len() as int),
{
    let mut n: u64 = 0;
    let mut i: usize = 0;
    while i < list.len()
        invariant
            i <= list.len(),
            n <= i,
            n == loops_among(list@, i as int),
        decreases list@.len() - i,
    {
        if list[i].1 {
            n = n + 1;
        }
        i = i + 1;
    }
    n
}

/// The leader analysis of a page, given its leaders and its hot pcs, each with
/// whether it heads a loop: 0 = leaders discovered, 1 = leaders dropped as loop
/// headers, 2 = hot pcs recorded, 3 = hot pcs that survive as leaders, 4 = hot
/// pcs dropped as loop headers.
pub fn analyze_superblock(leaders: &[(u64, bool)], seeds: &[(u64, bool)], which: u32) -> (n: u64)
    ensures
        n == if which == 0 {
            leaders@.len()
        } else if which == 1 {
            loops_among(leaders@, leaders@.len() as int)
        } else if which == 2 {
            seeds@.len()
        } else if which == 3 {
            surviving(seeds@, leaders@, seeds@.len() as int)
        } else {
            loops_among(seeds@, seeds@.len() as int)
        },
{
    match which {
        0 => leaders.len() as u64,
        1 => count_loops(leaders),
        2 => seeds.len() as u64,
        3 => {
            let mut n: u64 = 0;
            let mut i: usize = 0;
            while i < seeds.len()
                invariant
                    i <= seeds.len(),
                    n <= i,
                    n == surviving(seeds@, leaders@, i as int),
                decreases seeds@.len() - i,
            {
                let (pc, is_loop): (u64, bool) = seeds[i];
                let mut found: bool = false;
                let mut k: usize = 0;
                while k < leaders.len()
                    invariant
                        k <= leaders@.len(),
                        found == exists|j: int| 0 <= j < k && (#[trigger] leaders@[j]).0 == pc,
                    decreases leaders@.len() - k,
                {
                    assert(leaders@[k as int].0 == leaders@[k as int].0);
                    if leaders[k].0 == pc {
                        found = true;
                    }
                    k = k + 1;
                }
                if found && !is_loop {
                    n = n + 1;
                }
                i = i + 1;
            }
            n
        },
        _ => count_loops(seeds),
    }
}

} // verus!
