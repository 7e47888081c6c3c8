//! What is known of compiled code, and of code on its way through the compiler.

use vstd::prelude::*;
use crate::jit::index::PageKey;
use crate::jit::recency::JitOwnerId;

verus! {

/// A virtual page and the physical page that it maps to.
pub type PagePair = (u64, u64);

/// Bytes of guest code per page.
pub const PAGE_BYTES: u64 = 0x1000;

/// The start of the page that an address lies on.
pub open spec fn page_base(addr: u64) -> u64 {
    (addr - addr % 0x1000) as u64
}

/// The start of the page that an address lies on.
pub fn page_of(addr: u64) -> (page: u64)
    ensures
        page == page_base(addr),
        page <= addr,
{
    addr - addr % PAGE_BYTES
}

/// One compiled entry point.
#[derive(Clone, Copy, Debug, PartialEq, Eq)]
pub struct JitBlock {
    /// Trace touches the FP file (claim policy: see the trace-keeping minimum).
    pub fp: bool,
    /// Function-table index of the compiled block, negative where the code
    /// cannot be compiled.
    pub idx: i32,
    /// Guest instructions it retires; zero for an entry of a region function.
    pub n: u32,
    /// Static ordinary-trace mix (ALU/load/store/control/FP).
    pub mix: [u16; 5],
    pub mem: [u16; 10],
    pub control: [u16; 3],
    pub alu: [u16; 5],
    /// Physical address of the code (full-system: verified per dispatch).
    pub pa: u64,
    /// Sampled recency stamp. Updating this on every dispatch would defeat the
    /// direct-mapped fast path, so dispatchers touch one block per 256 calls.
    pub last_used: u64,
}

/// The code that a page module was compiled from.
#[derive(Clone, Copy, Debug, Eq, PartialEq, Structural)]
pub struct PageModuleSource {
    pub physical_page: u64,
    pub generation: u64,
    pub tlb_fill: bool,
}

/// A page module that is in use.
#[derive(Debug, Eq, PartialEq)]
pub struct LivePageModule {
    pub source: PageModuleSource,
    pub owner: JitOwnerId,
    pub entries: Vec<u64>,
}

/// The state of a [`LivePageModule`].
#[verifier::ext_equal]
pub struct LiveView {
    pub source: PageModuleSource,
    pub owner: JitOwnerId,
    pub entries: Seq<u64>,
}

impl View for LivePageModule {
    type V = LiveView;

    open spec fn view(&self) -> LiveView {
        LiveView { source: self.source, owner: self.owner, entries: self.entries@ }
    }
}

/// A copy of a list of addresses.
pub fn copied(list: &[u64]) -> (copy: Vec<u64>)
    ensures
        copy@ == list@,
{
    vstd::slice::slice_to_vec(list)
}

/// A copy of a list of pages.
pub fn copied_pages(list: &[PagePair]) -> (copy: Vec<PagePair>)
    ensures
        copy@ == list@,
{
    vstd::slice::slice_to_vec(list)
}

impl LivePageModule {
    pub fn copy(&self) -> (live: LivePageModule)
        ensures
            live@ == self@,
    {
        LivePageModule {
            source: self.source,
            owner: self.owner,
            entries: copied(self.entries.as_slice()),
        }
    }
}

/// Where the module of a page is in its life.
#[derive(Debug, Eq, PartialEq)]
pub enum PageModuleState {
    Attempted(PageModuleSource),
    Pending { source: PageModuleSource, ticket: u64, prior: Option<LivePageModule> },
    Live(LivePageModule),
}

/// The state of a [`PageModuleState`].
pub enum ModuleView {
    Attempted(PageModuleSource),
    Pending { source: PageModuleSource, ticket: u64, prior: Option<LiveView> },
    Live(LiveView),
}

/// What an optional module is.
pub open spec fn prior_view(prior: Option<LivePageModule>) -> Option<LiveView> {
    match prior {
        Some(live) => Some(live@),
        None => None,
    }
}

impl View for PageModuleState {
    type V = ModuleView;

    open spec fn view(&self) -> ModuleView {
        match *self {
            PageModuleState::Attempted(source) => ModuleView::Attempted(source),
            PageModuleState::Pending { source, ticket, prior } => ModuleView::Pending {
                source,
                ticket,
                prior: prior_view(prior),
            },
            PageModuleState::Live(live) => ModuleView::Live(live@),
        }
    }
}

impl ModuleView {
    /// The code that the module is, or will be, compiled from.
    pub open spec fn source(self) -> PageModuleSource {
        match self {
            ModuleView::Attempted(source) => source,
            ModuleView::Pending { source, .. } => source,
            ModuleView::Live(live) => live.source,
        }
    }

    /// The module that runs for the page now.
    pub open spec fn active_owner(self) -> Option<JitOwnerId> {
        match self {
            ModuleView::Live(live) => Some(live.owner),
            ModuleView::Pending { prior: Some(live), .. } => Some(live.owner),
            _ => None,
        }
    }
}

impl PageModuleState {
    /// The code that the module is, or will be, compiled from.
    pub fn source(&self) -> (source: PageModuleSource)
        ensures
            source == self@.source(),
    {
        match self {
            PageModuleState::Attempted(source) => *source,
            PageModuleState::Pending { source, .. } => *source,
            PageModuleState::Live(live) => live.source,
        }
    }

    /// The module that runs for the page now.
    pub fn active_owner(&self) -> (owner: Option<JitOwnerId>)
        ensures
            owner == self@.active_owner(),
    {
        match self {
            PageModuleState::Live(live) => Some(live.owner),
            PageModuleState::Pending { prior, .. } => match prior {
                Some(live) => Some(live.owner),
                None => None,
            },
            PageModuleState::Attempted(_) => None,
        }
    }
}

/// What to do about the module of a page.
#[derive(Debug, Eq, PartialEq)]
pub enum PageModuleDecision {
    Individual,
    Awaiting,
    Build(Option<LivePageModule>),
}

/// What became of a request for a page module.
#[derive(Clone, Copy, Debug, Eq, PartialEq, Structural)]
pub enum PageModuleIssue {
    Individual,
    Awaiting,
    Issued,
}

/// How the compilation of a page module ended.
#[derive(Clone, Copy, Debug, Eq, PartialEq, Structural)]
pub enum PageModuleFinish {
    Failed,
    Cancelled,
    Landed(JitOwnerId),
}

/// Sampled exit profile of one landed region function.
#[derive(Debug)]
pub struct RegionExits {
    /// satp the region was discovered in.
    pub aspace: u64,
    /// The page whose threshold crossing originally built this region — the
    /// stable identity that keys build cooldowns across rebuilds/extensions.
    pub lead: u64,
    /// (virtual page, physical page) the function was compiled over.
    pub pages: Vec<PagePair>,
    /// Sampled exits to a page OUTSIDE the region since landing.
    pub total: u32,
    /// Those exits per target page, first-come bounded.
    pub targets: Vec<(u64, u32)>,
    /// Every sampled exit (in- or out-of-region), and the instructions those
    /// stays retired — the measured average stay length that picks the
    /// extension's register mode (locals for long stays, memory for short)
    /// and triggers DEMOTION when the function demonstrably doesn't hold.
    pub samples: u32,
    pub stay_sum: u64,
    /// The entry pcs installed at landing (needed to un-claim on demotion).
    pub entries: Vec<u64>,
}

/// The state of a [`RegionExits`].
#[verifier::ext_equal]
pub struct ExitsView {
    pub aspace: u64,
    pub lead: u64,
    pub pages: Seq<PagePair>,
    pub total: u32,
    pub targets: Seq<(u64, u32)>,
    pub samples: u32,
    pub stay_sum: u64,
    pub entries: Seq<u64>,
}

impl View for RegionExits {
    type V = ExitsView;

    open spec fn view(&self) -> ExitsView {
        ExitsView {
            aspace: self.aspace,
            lead: self.lead,
            pages: self.pages@,
            total: self.total,
            targets: self.targets@,
            samples: self.samples,
            stay_sum: self.stay_sum,
            entries: self.entries@,
        }
    }
}

// ---- code on its way through the compiler --------------------------------

/// One block that is being compiled.
#[derive(Debug)]
pub struct PendingBlock {
    pub aspace: u64,
    pub pc: u64,
    pub block: JitBlock,
    pub pages: Vec<PagePair>,
    /// Write generation of each physical page when compilation was issued.
    pub page_generations: Vec<u64>,
    pub seeds: Vec<u64>,
    pub trace_pcs: Vec<u64>,
    pub missed_superblock: bool,
}

/// The state of a [`PendingBlock`].
#[verifier::ext_equal]
pub struct PendingView {
    pub aspace: u64,
    pub pc: u64,
    pub block: JitBlock,
    pub pages: Seq<PagePair>,
    pub page_generations: Seq<u64>,
    pub seeds: Seq<u64>,
    pub trace_pcs: Seq<u64>,
    pub missed_superblock: bool,
}

impl View for PendingBlock {
    type V = PendingView;

    open spec fn view(&self) -> PendingView {
        PendingView {
            aspace: self.aspace,
            pc: self.pc,
            block: self.block,
            pages: self.pages@,
            page_generations: self.page_generations@,
            seeds: self.seeds@,
            trace_pcs: self.trace_pcs@,
            missed_superblock: self.missed_superblock,
        }
    }
}

/// Several blocks that are being compiled as one module.
#[derive(Debug)]
pub struct PendingBatch {
    pub cell: usize,
    pub sequence: u64,
    pub members: Vec<PendingBlock>,
    pub page_module: Option<PageKey>,
}

/// A page superblock compiling asynchronously on the host's compiler.
/// Guest execution continues on existing code until the completed module passes
/// the boot, ownership, and physical-code-page checks.
#[derive(Debug)]
pub struct PendingRegion {
    /// satp of the address space the region was discovered in.
    pub aspace: u64,
    /// The page whose threshold crossing owns this region (cooldown identity
    /// across rebuilds and extensions).
    pub lead: u64,
    /// (virtual page, physical page) of every page in the compiled region,
    /// ascending (sparse regions need not be virtually contiguous).
    pub pages: Vec<PagePair>,
    /// Write generation of each physical page when compilation was issued.
    /// This rejects an old compile after a dirty drain and later re-mark.
    pub page_generations: Vec<u64>,
    pub entries: Vec<u64>,
}

/// What is being compiled.
#[derive(Debug)]
pub enum PendingJitKind {
    Block(PendingBlock),
    Batch(PendingBatch),
    Region(PendingRegion),
}

/// One compilation that was handed to the host.
#[derive(Debug)]
pub struct PendingJit {
    pub ticket: u64,
    pub boot_gen: u64,
    pub kind: PendingJitKind,
}

impl PendingJitKind {
    /// How many table slots the result takes.
    pub open spec fn slots(self) -> nat {
        match self {
            PendingJitKind::Batch(batch) => if batch.page_module is Some {
                1
            } else {
                batch.members@.len()
            },
            _ => 1,
        }
    }
}

impl PendingJit {
    /// How many table slots the result takes.
    pub fn slot_count(&self) -> (n: usize)
        ensures
            n == self.kind.slots(),
    {
        match &self.kind {
            PendingJitKind::Block(_) | PendingJitKind::Region(_) => 1,
            PendingJitKind::Batch(batch) => if batch.page_module.is_some() {
                1
            } else {
                batch.members.len()
            },
        }
    }
}

} // verus!
