//! The interpreter's cache of decoded instruction pages, and the decisions of
//! an interpreter that runs from it.

use vstd::prelude::*;
use crate::bytes::{le_value, read_le};
use crate::dma::in_ram;
use crate::machine::SliceStop;
use crate::ram::{checked_ram_range, RAM_BASE};

verus! {

pub const CODE_CACHE_PAGES: usize = 256;

pub const CODE_PAGE_HALFWORDS: usize = 2048;

/// Most instructions in one decoded block.
pub const DECODED_BLOCK_MAX: usize = 64;

/// Most instructions that one page keeps before it starts over.
pub const DECODED_PAGE_ARENA_MAX: usize = 8192;

/// JIT routing queried by the decoded interpreter at basic-block boundaries.
///
/// `contains` is a side-effect-free lookahead used to stop a cached natural
/// block before a compiled successor. `observe` is called only for a PC that
/// execution actually reaches and may request a return to the tier-up dispatcher.
pub trait CodeDispatch {
    /// Whether the dispatcher is in a state in which it can be asked.
    spec fn valid(&self) -> bool;

    /// Whether the code at `pc` is compiled.
    spec fn compiled(&self, pc: u64) -> bool;

    /// Whether `now` is the dispatcher after execution reached `pc` and it
    /// answered `stop`.
    spec fn reached(&self, pc: u64, stop: bool, now: &Self) -> bool;

    fn contains(&self, pc: u64) -> (found: bool)
        requires
            self.valid(),
        ensures
            found == self.compiled(pc),
    ;

    fn observe(&mut self, pc: u64) -> (stop: bool)
        requires
            old(self).valid(),
        ensures
            final(self).valid(),
            old(self).compiled(pc) ==> stop,
            old(self).reached(pc, stop, &*final(self)),
    ;
}

/// One decoded instruction: its encoding, and whether it ends a basic block.
#[derive(Debug, Clone, Copy, PartialEq, Eq, Structural)]
pub struct DecodedInsn {
    pub word: u32,
    pub ends_block: bool,
}

impl DecodedInsn {
    /// Bytes that the encoding takes.
    pub open spec fn size(self) -> int {
        if self.word % 4 == 3 {
            4
        } else {
            2
        }
    }

    /// Bytes that the encoding takes.
    pub fn byte_len(self) -> (len: u64)
        ensures
            len == self.size(),
    {
        if self.word % 4 == 3 {
            4
        } else {
            2
        }
    }
}

/// The instruction at byte `off` of a page, if it lies in the page. `ends` says
/// of each halfword whether an instruction there ends a basic block.
pub open spec fn insn_at(page: Seq<u8>, ends: Seq<bool>, off: int) -> Option<DecodedInsn> {
    let low = le_value(page.subrange(off, off + 2));
    if off + 2 > 4096 {
        None
    } else if low % 4 != 3 {
        Some(DecodedInsn { word: low as u32, ends_block: ends[off / 2] })
    } else if off + 4 > 4096 {
        None
    } else {
        Some(
            DecodedInsn {
                word: le_value(page.subrange(off, off + 4)) as u32,
                ends_block: ends[off / 2],
            },
        )
    }
}

/// The natural block at byte `off` of a page, of at most `limit` instructions:
/// it goes up to an instruction that ends a basic block, or to the end of the
/// page.
pub open spec fn run_at(page: Seq<u8>, ends: Seq<bool>, off: int, limit: nat) -> Seq<DecodedInsn>
    decreases limit,
{
    if limit == 0 {
        Seq::empty()
    } else {
        match insn_at(page, ends, off) {
            None => Seq::empty(),
            Some(insn) => if insn.ends_block || off + insn.size() == 4096 {
                seq![insn]
            } else {
                seq![insn] + run_at(page, ends, off + insn.size(), (limit - 1) as nat)
            },
        }
    }
}

/// Bytes that the first `k` instructions of a block take.
pub open spec fn run_size(run: Seq<DecodedInsn>, k: int) -> int
    decreases k,
{
    if k <= 0 {
        0
    } else {
        run_size(run, k - 1) + run[k - 1].size()
    }
}

/// A page's blocks after the first `k` entries of `run` are entered: each
/// instruction of a block starts the block that is left from there.
pub open spec fn entered(
    blocks: Seq<Option<Seq<DecodedInsn>>>,
    run: Seq<DecodedInsn>,
    off: int,
    k: int,
) -> Seq<Option<Seq<DecodedInsn>>>
    decreases k,
{
    if k <= 0 {
        blocks
    } else {
        entered(blocks, run, off, k - 1).update(
            (off + run_size(run, k - 1)) / 2,
            Some(run.subrange(k - 1, run.len() as int)),
        )
    }
}

#[derive(Clone, Copy)]
struct CachedBlock {
    offset_plus_one: u32,
    len: u8,
}

/// The decoded blocks of one physical page.
pub struct DecodedCodePage {
    physical_page: u64,
    icache_gen: u64,
    blocks: Vec<CachedBlock>,
    instructions: Vec<DecodedInsn>,
}

/// The state of a [`DecodedCodePage`]: for each halfword the block that starts
/// there, if it was decoded, and how many instructions the page keeps.
#[verifier::ext_equal]
pub struct PageView {
    pub physical_page: u64,
    pub icache_gen: u64,
    pub blocks: Seq<Option<Seq<DecodedInsn>>>,
    pub kept: nat,
}

spec fn block_view(block: CachedBlock, instructions: Seq<DecodedInsn>) -> Option<
    Seq<DecodedInsn>,
> {
    if block.offset_plus_one == 0 {
        None
    } else {
        Some(
            instructions.subrange(
                block.offset_plus_one - 1,
                block.offset_plus_one - 1 + block.len,
            ),
        )
    }
}

impl View for DecodedCodePage {
    type V = PageView;

    closed spec fn view(&self) -> PageView {
        PageView {
            physical_page: self.physical_page,
            icache_gen: self.icache_gen,
            blocks: Seq::new(
                2048,
                |s: int| block_view(self.blocks@[s], self.instructions@),
            ),
            kept: self.instructions@.len(),
        }
    }
}

impl PageView {
    /// A page of which nothing is decoded.
    pub open spec fn fresh(physical_page: u64, icache_gen: u64) -> PageView {
        PageView {
            physical_page,
            icache_gen,
            blocks: Seq::new(2048, |s: int| None),
            kept: 0,
        }
    }

    /// The page with room for one more block: a page that is full starts over.
    pub open spec fn roomy(self) -> PageView {
        if self.kept + DECODED_BLOCK_MAX > DECODED_PAGE_ARENA_MAX {
            PageView::fresh(self.physical_page, self.icache_gen)
        } else {
            self
        }
    }

    /// The bytes of the page.
    pub open spec fn bytes(self, ram: Seq<u8>) -> Seq<u8> {
        ram.subrange(self.physical_page - RAM_BASE, self.physical_page - RAM_BASE + 4096)
    }

    /// The block at byte `off`: the one decoded before, else the one that the
    /// page's bytes hold now.
    pub open spec fn block_at(self, ram: Seq<u8>, ends: Seq<bool>, off: int) -> Option<
        Seq<DecodedInsn>,
    > {
        if self.blocks[off / 2] is Some {
            self.blocks[off / 2]
        } else {
            let run = run_at(self.bytes(ram), ends, off, DECODED_BLOCK_MAX as nat);
            if !in_ram(ram.len(), RAM_BASE, self.physical_page as int, 4096) || run.len() == 0 {
                None
            } else {
                Some(run)
            }
        }
    }

    /// The page after the block at byte `off` is looked up.
    pub open spec fn looked_up(self, ram: Seq<u8>, ends: Seq<bool>, off: int) -> PageView {
        if self.blocks[off / 2] is Some {
            self
        } else {
            match self.block_at(ram, ends, off) {
                None => self.roomy(),
                Some(run) => PageView {
                    blocks: entered(self.roomy().blocks, run, off, run.len() as int),
                    kept: self.roomy().kept + run.len(),
                    ..self
                },
            }
        }
    }
}

proof fn lemma_run_at(page: Seq<u8>, ends: Seq<bool>, off: int, limit: nat)
    requires
        page.len() == 4096,
        0 <= off,
        off % 2 == 0,
    ensures
        run_at(page, ends, off, limit).len() <= limit,
        forall|k: int|
            0 <= k < run_at(page, ends, off, limit).len() ==> 0 <= off + #[trigger] run_size(
                run_at(page, ends, off, limit),
                k,
            ) < 4096 && (off + run_size(run_at(page, ends, off, limit), k)) % 2 == 0,
    decreases limit,
{
    let run = run_at(page, ends, off, limit);
    if limit > 0 {
        if let Some(insn) = insn_at(page, ends, off) {
            let next = off + insn.size();
            if !(insn.ends_block || next == 4096) {
                let rest = run_at(page, ends, next, (limit - 1) as nat);
                lemma_run_at(page, ends, next, (limit - 1) as nat);
                assert forall|k: int| 0 <= k < run.len() implies 0 <= off + #[trigger] run_size(
                    run,
                    k,
                ) < 4096 && (off + run_size(run, k)) % 2 == 0 by {
                    if k > 0 {
                        lemma_run_size_shift(insn, rest, k);
                        assert(run_size(rest, k - 1) + insn.size() == run_size(run, k));
                    }
                }
            } else {
                assert forall|k: int| 0 <= k < run.len() implies 0 <= off + #[trigger] run_size(
                    run,
                    k,
                ) < 4096 && (off + run_size(run, k)) % 2 == 0 by {}
            }
        }
    }
}

proof fn lemma_run_size_shift(insn: DecodedInsn, rest: Seq<DecodedInsn>, k: int)
    requires
        1 <= k <= rest.len() + 1,
    ensures
        run_size(seq![insn] + rest, k) == insn.size() + run_size(rest, k - 1),
    decreases k,
{
    let run = seq![insn] + rest;
    if k > 1 {
        lemma_run_size_shift(insn, rest, k - 1);
        assert(run[k - 1] == rest[k - 2]);
    } else {
        assert(run_size(run, 0) == 0);
        assert(run[0] == insn);
    }
}

proof fn lemma_run_size_prefix(a: Seq<DecodedInsn>, b: Seq<DecodedInsn>, k: int)
    requires
        k <= a.len() <= b.len(),
        forall|i: int| 0 <= i < a.len() ==> a[i] == b[i],
    ensures
        run_size(a, k) == run_size(b, k),
    decreases k,
{
    if k > 0 {
        lemma_run_size_prefix(a, b, k - 1);
    }
}

/// The natural block at byte `off` of `page`.
fn decode_run(page: &[u8], ends: &[bool], off: usize) -> (run: Vec<DecodedInsn>)
    requires
        page@.len() == 4096,
        ends@.len() == 2048,
        off % 2 == 0,
        off <= 4094,
    ensures
        run@ == run_at(page@, ends@, off as int, DECODED_BLOCK_MAX as nat),
{
    let mut run: Vec<DecodedInsn> = Vec::new();
    let mut at: usize = off;
    let ghost whole = run_at(page@, ends@, off as int, DECODED_BLOCK_MAX as nat);
    assert(run@ + whole =~= whole);
    while run.len() < DECODED_BLOCK_MAX
        invariant_except_break
            at <= 4094,
            whole == run@ + run_at(
                page@,
                ends@,
                at as int,
                (DECODED_BLOCK_MAX - run@.len()) as nat,
            ),
        invariant
            page@.len() == 4096,
            ends@.len() == 2048,
            at % 2 == 0,
            run@.len() <= DECODED_BLOCK_MAX,
            at <= 4096,
        ensures
            whole == run@,
        decreases DECODED_BLOCK_MAX - run@.len(),
    {
        proof {
            crate::bytes::lemma_byte_spans();
            crate::bytes::lemma_le_value_bound(page@.subrange(at as int, at + 2));
        }
        let ghost rest = run_at(
            page@,
            ends@,
            at as int,
            (DECODED_BLOCK_MAX - run@.len()) as nat,
        );
        let low: u64 = read_le(page, at, 2);
        let mut word: u32 = low as u32;
        if low % 4 == 3 {
            if at + 4 > 4096 {
                assert(rest =~= Seq::empty());
                assert(run@ + rest =~= run@);
                break ;
            }
            proof {
                crate::bytes::lemma_le_value_bound(page@.subrange(at as int, at + 4));
            }
            word = read_le(page, at, 4) as u32;
            assert(word % 4 == 3) by {
                lemma_low_bits(page@.subrange(at as int, at + 4));
                assert(page@.subrange(at as int, at + 4).subrange(0, 2) =~= page@.subrange(
                    at as int,
                    at + 2,
                ));
            }
        }
        let insn = DecodedInsn { word, ends_block: ends[at / 2] };
        assert(insn_at(page@, ends@, at as int) == Some(insn));
        let ghost before = run@;
        run.push(insn);
        at = at + insn.byte_len() as usize;
        if insn.ends_block || at == 4096 {
            assert(rest =~= seq![insn]);
            assert(before + rest =~= run@);
            break ;
        }
        proof {
            let next = run_at(
                page@,
                ends@,
                at as int,
                (DECODED_BLOCK_MAX - run@.len()) as nat,
            );
            assert(before + (seq![insn] + next) =~= run@ + next);
        }
    }
    run
}

proof fn lemma_low_bits(s: Seq<u8>)
    requires
        s.len() == 4,
    ensures
        le_value(s) % 4 == le_value(s.subrange(0, 2)) % 4,
{
    reveal_with_fuel(le_value, 5);
    let t = s.subrange(0, 2);
    assert(le_value(t) == t[0] as nat + 256 * le_value(t.drop_first()));
    assert(le_value(s) == s[0] as nat + 256 * le_value(s.drop_first()));
}

impl DecodedCodePage {
    /// Every cached block lies in the page's instructions.
    pub closed spec fn wf(&self) -> bool {
        &&& self.blocks@.len() == 2048
        &&& self.instructions@.len() <= DECODED_PAGE_ARENA_MAX
        &&& forall|s: int|
            0 <= s < 2048 ==> (#[trigger] self.blocks@[s]).offset_plus_one == 0
                || self.blocks@[s].offset_plus_one - 1 + self.blocks@[s].len
                <= self.instructions@.len()
    }

    /// A page of which nothing is decoded.
    pub fn new(physical_page: u64, icache_gen: u64) -> (page: Self)
        ensures
            page.wf(),
            page@ == PageView::fresh(physical_page, icache_gen),
    {
        let page = DecodedCodePage {
            physical_page,
            icache_gen,
            blocks: vec![CachedBlock { offset_plus_one: 0, len: 0 }; 2048],
            instructions: Vec::new(),
        };
        assert(page@.blocks =~= Seq::new(2048, |s: int| None));
        page
    }

    /// The block at byte `page_offset`, decoded from the page's bytes unless it
    /// was decoded before.
    pub fn block(&mut self, ram: &[u8], ends: &[bool], page_offset: usize) -> (block: Option<
        Vec<DecodedInsn>,
    >)
        requires
            old(self).wf(),
            ends@.len() == CODE_PAGE_HALFWORDS,
            page_offset % 2 == 0,
            page_offset <= 0xffe,
        ensures
            final(self).wf(),
            final(self)@ == old(self)@.looked_up(ram@, ends@, page_offset as int),
            match (block, old(self)@.block_at(ram@, ends@, page_offset as int)) {
                (Some(a), Some(b)) => a@ == b,
                (None, None) => true,
                _ => false,
            },
    {
        let slot: usize = page_offset / 2;
        let cached = self.blocks[slot];
        if cached.offset_plus_one != 0 {
            let start: usize = cached.offset_plus_one as usize - 1;
            let mut block: Vec<DecodedInsn> = Vec::new();
            let mut i: usize = 0;
            while i < cached.len as usize
                invariant
                    i <= cached.len,
                    start == cached.offset_plus_one - 1,
                    start + cached.len <= self.instructions@.len(),
                    self.instructions@.len() <= DECODED_PAGE_ARENA_MAX,
                    block@ == self.instructions@.subrange(start as int, start + i),
                decreases cached.len - i,
            {
                block.push(self.instructions[start + i]);
                i = i + 1;
                assert(block@ =~= self.instructions@.subrange(start as int, start + i));
            }
            return Some(block);
        }
        if self.instructions.len() + DECODED_BLOCK_MAX > DECODED_PAGE_ARENA_MAX {
            self.blocks = vec![CachedBlock { offset_plus_one: 0, len: 0 }; 2048];
            self.instructions = Vec::new();
            assert(self@.blocks =~= Seq::new(2048, |s: int| None));
        }
        assert(self@ == old(self)@.roomy());
        let range = match checked_ram_range(ram.len(), RAM_BASE, self.physical_page, 4096) {
            Some(range) => range,
            None => {
                return None;
            },
        };
        let page: &[u8] = vstd::slice::slice_subrange(ram, range.start, range.end);
        let run: Vec<DecodedInsn> = decode_run(page, ends, page_offset);
        if run.len() == 0 {
            return None;
        }
        proof {
            lemma_run_at(page@, ends@, page_offset as int, DECODED_BLOCK_MAX as nat);
        }
        let arena_start: usize = self.instructions.len();
        let ghost base = *self;
        let mut i: usize = 0;
        // Append the run first: the ranges entered below lie in it.
        while i < run.len()
            invariant
                i <= run@.len() <= DECODED_BLOCK_MAX,
                arena_start + DECODED_BLOCK_MAX <= DECODED_PAGE_ARENA_MAX,
                arena_start == base.instructions@.len(),
                self.instructions@ == base.instructions@ + run@.subrange(0, i as int),
                self.blocks@ == base.blocks@,
                self.physical_page == base.physical_page,
                self.icache_gen == base.icache_gen,
            decreases run@.len() - i,
        {
            self.instructions.push(run[i]);
            i = i + 1;
            assert(self.instructions@ =~= base.instructions@ + run@.subrange(0, i as int));
        }
        assert(run@.subrange(0, i as int) =~= run@);
        proof {
            assert forall|s: int| 0 <= s < 2048 implies block_view(
                #[trigger] self.blocks@[s],
                self.instructions@,
            ) == base@.blocks[s] by {
                let b = base.blocks@[s];
                if b.offset_plus_one != 0 {
                    assert(self.instructions@.subrange(
                        b.offset_plus_one - 1,
                        b.offset_plus_one - 1 + b.len,
                    ) =~= base.instructions@.subrange(
                        b.offset_plus_one - 1,
                        b.offset_plus_one - 1 + b.len,
                    ));
                }
            }
            assert(self@.blocks =~= base@.blocks);
        }
        let ghost instructions = self.instructions@;
        let mut offset: usize = page_offset;
        i = 0;
        while i < run.len()
            invariant
                i <= run@.len() <= DECODED_BLOCK_MAX,
                run@ == run_at(page@, ends@, page_offset as int, DECODED_BLOCK_MAX as nat),
                page@.len() == 4096,
                arena_start + DECODED_BLOCK_MAX <= DECODED_PAGE_ARENA_MAX,
                arena_start == base.instructions@.len(),
                self.instructions@ == instructions,
                instructions == base.instructions@ + run@,
                self.wf(),
                offset == page_offset + run_size(run@, i as int),
                offset <= 4096 + 4,
                forall|k: int|
                    0 <= k < run@.len() ==> 0 <= page_offset + #[trigger] run_size(run@, k) < 4096
                        && (page_offset + run_size(run@, k)) % 2 == 0,
                self.physical_page == base.physical_page,
                self.icache_gen == base.icache_gen,
                self@.blocks == entered(base@.blocks, run@, page_offset as int, i as int),
            decreases run@.len() - i,
        {
            assert(0 <= page_offset + run_size(run@, i as int) < 4096);
            let slot: usize = offset / 2;
            let ghost before = self@.blocks;
            let entry = CachedBlock {
                offset_plus_one: (arena_start + 1 + i) as u32,
                len: (run.len() - i) as u8,
            };
            self.blocks.set(slot, entry);
            proof {
                assert(instructions.subrange(arena_start + i, arena_start + run@.len())
                    =~= run@.subrange(i as int, run@.len() as int));
                assert(self@.blocks =~= before.update(
                    slot as int,
                    Some(run@.subrange(i as int, run@.len() as int)),
                ));
            }
            offset = offset + run[i].byte_len() as usize;
            i = i + 1;
        }
        Some(run)
    }
}

/// Fixed-size L1 for the interpreter's decoded instruction pages. Each page
/// owns compact natural basic blocks, so a cache hit lends the CPU a persistent
/// decoded block without rebuilding it.
pub struct CodePageCache {
    pages: Vec<Option<DecodedCodePage>>,
}

/// The view of a cached page, if there is one.
pub open spec fn page_view(page: Option<DecodedCodePage>) -> Option<PageView> {
    match page {
        Some(page) => Some(page@),
        None => None,
    }
}

impl View for CodePageCache {
    type V = Seq<Option<PageView>>;

    closed spec fn view(&self) -> Seq<Option<PageView>> {
        self.pages@.map_values(|page: Option<DecodedCodePage>| page_view(page))
    }
}

/// The cache slot of a physical page.
pub open spec fn cache_slot(physical: u64) -> u64 {
    let page = physical / 4096;
    (page ^ (page / 512)) % 256
}

/// The page that a lookup works on: the cached one if it is of the same
/// physical page and instruction-cache generation, else a fresh one.
pub open spec fn current_page(
    cache: Seq<Option<PageView>>,
    physical: u64,
    icache_gen: u64,
) -> PageView {
    let physical_page = (physical / 4096 * 4096) as u64;
    match cache[cache_slot(physical) as int] {
        Some(page) if page.physical_page == physical_page && page.icache_gen == icache_gen => page,
        _ => PageView::fresh(physical_page, icache_gen),
    }
}

/// A block that was decoded is served again whatever RAM holds by then, until
/// the instruction cache has another generation.
pub proof fn law_cached_block_outlives_stores(
    page: PageView,
    ram: Seq<u8>,
    later: Seq<u8>,
    ends: Seq<bool>,
    off: int,
)
    requires
        page.blocks.len() == 2048,
        0 <= off <= 0xffe,
        off % 2 == 0,
        ram.len() <= usize::MAX,
        page.block_at(ram, ends, off) is Some,
    ensures
        page.looked_up(ram, ends, off).block_at(later, ends, off) == page.block_at(ram, ends, off),
{
    if page.blocks[off / 2] is None {
        let run = page.block_at(ram, ends, off)->0;
        lemma_run_at(page.bytes(ram), ends, off, DECODED_BLOCK_MAX as nat);
        lemma_first_entry(page.roomy().blocks, run, off, run.len() as int);
        assert(run.subrange(0, run.len() as int) =~= run);
    }
}

proof fn lemma_first_entry(
    blocks: Seq<Option<Seq<DecodedInsn>>>,
    run: Seq<DecodedInsn>,
    off: int,
    k: int,
)
    requires
        1 <= k <= run.len(),
        blocks.len() == 2048,
        off % 2 == 0,
        forall|j: int|
            0 <= j < run.len() ==> 0 <= off + #[trigger] run_size(run, j) < 4096,
    ensures
        entered(blocks, run, off, k)[off / 2] == Some(run.subrange(0, run.len() as int)),
        entered(blocks, run, off, k).len() == 2048,
    decreases k,
{
    assert(run_size(run, 0) == 0);
    assert(0 <= off + run_size(run, k - 1) < 4096);
    if k > 1 {
        lemma_first_entry(blocks, run, off, k - 1);
        lemma_run_size_grows(run, k - 1);
    } else {
        assert(entered(blocks, run, off, 0) == blocks);
    }
}

proof fn lemma_run_size_grows(run: Seq<DecodedInsn>, k: int)
    requires
        0 <= k <= run.len(),
    ensures
        run_size(run, k) >= 2 * k,
    decreases k,
{
    if k > 0 {
        lemma_run_size_grows(run, k - 1);
    }
}

/// A new generation of the instruction cache (FENCE.I) makes every lookup read
/// RAM again.
pub proof fn law_new_generation_decodes_afresh(
    cache: Seq<Option<PageView>>,
    physical: u64,
    icache_gen: u64,
    ram: Seq<u8>,
    ends: Seq<bool>,
)
    requires
        cache.len() == CODE_CACHE_PAGES,
        cache[cache_slot(physical) as int] matches Some(page) ==> page.icache_gen != icache_gen,
        physical % 2 == 0,
    ensures
        ({
            let page = current_page(cache, physical, icache_gen);
            let off = physical as int % 4096;
            let run = run_at(page.bytes(ram), ends, off, DECODED_BLOCK_MAX as nat);
            page.block_at(ram, ends, off) == if in_ram(
                ram.len(),
                RAM_BASE,
                page.physical_page as int,
                4096,
            ) && run.len() > 0 {
                Some(run)
            } else {
                None
            }
        }),
{
}

impl CodePageCache {
    /// All slots are there and every cached page is valid.
    pub closed spec fn wf(&self) -> bool {
        &&& self.pages@.len() == CODE_CACHE_PAGES
        &&& forall|s: int|
            0 <= s < self.pages@.len() ==> ((#[trigger] self.pages@[s]) matches Some(page)
                ==> page.wf())
    }

    /// An empty cache.
    pub fn new() -> (cache: Self)
        ensures
            cache.wf(),
            cache@ == Seq::new(CODE_CACHE_PAGES as nat, |s: int| None::<PageView>),
    {
        let mut pages: Vec<Option<DecodedCodePage>> = Vec::new();
        let mut i: usize = 0;
        while i < CODE_CACHE_PAGES
            invariant
                i <= CODE_CACHE_PAGES,
                pages@.len() == i,
                forall|s: int| 0 <= s < i ==> (#[trigger] pages@[s]) is None,
            decreases CODE_CACHE_PAGES - i,
        {
            pages.push(None);
            i = i + 1;
        }
        let cache = CodePageCache { pages };
        assert(cache@ =~= Seq::new(CODE_CACHE_PAGES as nat, |s: int| None::<PageView>));
        cache
    }

    /// The decoded block at a physical address.
    pub fn block(&mut self, ram: &[u8], ends: &[bool], physical: u64, icache_gen: u64) -> (block:
        Option<Vec<DecodedInsn>>)
        requires
            old(self).wf(),
            ends@.len() == CODE_PAGE_HALFWORDS,
        ensures
            final(self).wf(),
            physical % 2 != 0 ==> block is None && final(self)@ == old(self)@,
            physical % 2 == 0 ==> {
                let page = current_page(old(self)@, physical, icache_gen);
                let off = physical as int % 4096;
                &&& final(self)@ == old(self)@.update(
                    cache_slot(physical) as int,
                    Some(page.looked_up(ram@, ends@, off)),
                )
                &&& match (block, page.block_at(ram@, ends@, off)) {
                    (Some(a), Some(b)) => a@ == b,
                    (None, None) => true,
                    _ => false,
                }
            },
    {
        let page_offset: usize = (physical % 4096) as usize;
        let physical_page: u64 = physical / 4096 * 4096;
        if page_offset % 2 != 0 {
            return None;
        }
        let number: u64 = physical / 4096;
        let slot: usize = ((number ^ (number / 512)) % 256) as usize;
        let ghost before = self@;
        assert(self@[slot as int] == page_view(self.pages@[slot as int]));
        let held = self.pages.remove(slot);
        let mut page = match held {
            Some(page) => if page.physical_page != physical_page || page.icache_gen != icache_gen {
                DecodedCodePage::new(physical_page, icache_gen)
            } else {
                page
            },
            None => DecodedCodePage::new(physical_page, icache_gen),
        };
        assert(page@ == current_page(before, physical, icache_gen));
        let block = page.block(ram, ends, page_offset);
        self.pages.insert(slot, Some(page));
        assert(self@ =~= before.update(slot as int, Some(page@)));
        block
    }
}

// ---- running from the cache ----------------------------------------------

/// An interpreter run from decoded pages.
#[derive(Debug, Clone, Copy, PartialEq, Eq, Structural)]
pub struct CachedRun {
    pub start: u64,
    pub max_insns: u64,
    /// Traps in a row that retired nothing.
    pub stalled_traps: u64,
    pub first_block: bool,
}

/// How a stretch of decoded instructions ended.
#[derive(Debug, Clone, Copy, PartialEq, Eq, Structural)]
pub enum StretchEnd {
    /// All of it ran, or control left it.
    Ran,
    /// An instruction trapped.
    Trapped,
    /// The hart stopped.
    Stopped(SliceStop),
}

impl CachedRun {
    /// A run of at most `max_insns` instructions from now.
    pub fn begin(insn_count: u64, max_insns: u64) -> (run: CachedRun)
        ensures
            run == (CachedRun { start: insn_count, max_insns, stalled_traps: 0, first_block: true }),
    {
        CachedRun { start: insn_count, max_insns, stalled_traps: 0, first_block: true }
    }

    /// Before the next block: whether to stop, or else how many instructions
    /// are left. A block after the first stops where the dispatcher says so; a
    /// run stops when its instructions or its fruitless traps are used up.
    pub fn next<D: CodeDispatch>(&mut self, dispatch: &mut D, pc: u64, insn_count: u64) -> (next:
        Result<u64, SliceStop>)
        requires
            old(dispatch).valid(),
            old(self).start <= insn_count,
        ensures
            final(dispatch).valid(),
            *final(self) == (CachedRun {
                first_block: old(self).first_block && next == Err::<u64, SliceStop>(
                    SliceStop::Compiled,
                ),
                ..*old(self)
            }),
            old(self).first_block ==> *final(dispatch) == *old(dispatch) && next
                == old(self).budget(insn_count),
            !old(self).first_block ==> exists|stop: bool| #[trigger]
                old(dispatch).reached(pc, stop, &*final(dispatch)) && next == if stop {
                    Err::<u64, SliceStop>(SliceStop::Compiled)
                } else {
                    old(self).budget(insn_count)
                },
            !old(self).first_block && old(dispatch).compiled(pc) ==> next == Err::<u64, SliceStop>(
                SliceStop::Compiled,
            ),
    {
        if !self.first_block && dispatch.observe(pc) {
            return Err(SliceStop::Compiled);
        }
        self.first_block = false;
        let retired: u64 = insn_count - self.start;
        if retired >= self.max_insns || self.stalled_traps >= self.max_insns {
            return Err(SliceStop::Budget);
        }
        Ok(self.max_insns - retired)
    }

    /// The instructions that are left, or that none are.
    pub open spec fn budget(self, insn_count: u64) -> Result<u64, SliceStop> {
        if insn_count - self.start >= self.max_insns || self.stalled_traps >= self.max_insns {
            Err(SliceStop::Budget)
        } else {
            Ok((self.max_insns - (insn_count - self.start)) as u64)
        }
    }

    /// After a stretch: whether the run stops. Traps that retire nothing are
    /// counted so that a trap loop cannot run forever.
    pub fn ended(&mut self, end: StretchEnd, retired: u64) -> (stop: Option<SliceStop>)
        ensures
            match end {
                StretchEnd::Stopped(stop_reason) => stop == Some(stop_reason) && *final(self)
                    == *old(self),
                _ => {
                    &&& stop is None
                    &&& *final(self) == (CachedRun {
                        stalled_traps: if end is Trapped && retired == 0 {
                            if old(self).stalled_traps == u64::MAX {
                                u64::MAX
                            } else {
                                (old(self).stalled_traps + 1) as u64
                            }
                        } else {
                            0
                        },
                        ..*old(self)
                    })
                },
            },
    {
        match end {
            StretchEnd::Stopped(stop) => Some(stop),
            StretchEnd::Trapped => {
                if retired == 0 {
                    self.stalled_traps = self.stalled_traps.saturating_add(1);
                } else {
                    self.stalled_traps = 0;
                }
                None
            },
            StretchEnd::Ran => {
                self.stalled_traps = 0;
                None
            },
        }
    }

    /// After one instruction ran outside the cache.
    pub fn ended_one(&mut self, stop: SliceStop, retired: u64) -> (end: Option<SliceStop>)
        ensures
            end == if stop is Budget {
                None
            } else {
                Some(stop)
            },
            *final(self) == (CachedRun {
                stalled_traps: if retired == 0 {
                    if old(self).stalled_traps == u64::MAX {
                        u64::MAX
                    } else {
                        (old(self).stalled_traps + 1) as u64
                    }
                } else {
                    0
                },
                ..*old(self)
            }),
    {
        if retired == 0 {
            self.stalled_traps = self.stalled_traps.saturating_add(1);
        } else {
            self.stalled_traps = 0;
        }
        match stop {
            SliceStop::Budget => None,
            other => Some(other),
        }
    }
}

/// Whether a fetch that translated to `physical` can be served from the cache:
/// the translation keeps the page offset and the page is all in RAM.
pub fn fetch_is_cacheable(pc: u64, physical: u64, ram_len: usize) -> (cacheable: bool)
    ensures
        cacheable == (physical % 4096 == pc % 4096 && in_ram(
            ram_len as nat,
            RAM_BASE,
            physical as int / 4096 * 4096,
            4096,
        )),
{
    physical % 4096 == pc % 4096 && checked_ram_range(
        ram_len,
        RAM_BASE,
        physical / 4096 * 4096,
        4096,
    ).is_some()
}

/// The program counter behind the first `k` instructions of `block`.
pub open spec fn pc_after(block: Seq<DecodedInsn>, pc: u64, k: int) -> u64 {
    ((pc + run_size(block, k)) % 0x1_0000_0000_0000_0000) as u64
}

/// How many instructions of a block to run: no more than are left and, where
/// the embedding can take over, up to the first whose successor is compiled.
pub fn stretch_len<D: CodeDispatch>(
    dispatch: &D,
    block: &[DecodedInsn],
    pc: u64,
    remaining: u64,
    stop_capable: bool,
) -> (count: usize)
    requires
        dispatch.valid(),
    ensures
        count <= block@.len(),
        count <= remaining,
        forall|k: int|
            stop_capable && 1 <= k < count ==> !dispatch.compiled(#[trigger] pc_after(block@, pc, k)),
        count == block@.len() || count == remaining || (stop_capable && count >= 1
            && dispatch.compiled(pc_after(block@, pc, count as int))),
{
    let limit: usize = if (block.len() as u64) <= remaining {
        block.len()
    } else {
        remaining as usize
    };
    if stop_capable {
        let mut next_pc: u64 = pc;
        let mut i: usize = 0;
        while i < limit
            invariant
                i <= limit <= block@.len(),
                limit == block@.len() || limit == remaining,
                limit <= remaining,
                dispatch.valid(),
                stop_capable,
                next_pc == pc_after(block@, pc, i as int),
                forall|k: int|
                    1 <= k <= i ==> !dispatch.compiled(#[trigger] pc_after(block@, pc, k)),
            decreases limit - i,
        {
            proof {
                lemma_run_size_grows(block@, i as int);
            }
            next_pc = next_pc.wrapping_add(block[i].byte_len());
            i = i + 1;
            if dispatch.contains(next_pc) {
                return i;
            }
        }
    }
    limit
}

} // verus!
