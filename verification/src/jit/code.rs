//! The code cache: compiled entries, the table slots they call, and the modules
//! that own the slots.
//!
//! A compiled module can own one slot, a contiguous batch, or one region
//! function, and is retired as one unit. Three indexes keep retirement and
//! invalidation proportional to what is dropped; they are never consulted for
//! anything that the cache itself does not say.

use vstd::prelude::*;
use vstd::std_specs::iter::IteratorSpec;
use std::collections::HashMap;
use crate::jit::block::{
    page_base, page_of, prior_view, ExitsView, JitBlock, LivePageModule, LiveView,
    ModuleView, PageModuleDecision, PageModuleFinish, PageModuleSource, PageModuleState, PagePair,
    PendingBatch, RegionExits,
};
use crate::jit::index::{
    is_sorted_set_of, others, sorted_set, without, Index, PageKey, PageMap,
};
use crate::jit::recency::{JitOwnerId, Recency};
use crate::jit::table::{bump, bumped, SlotTable, TableView};
use crate::ram::RAM_BASE;

verus! {

broadcast use vstd::std_specs::hash::group_hash_axioms;

/// Compiled code and what holds it.
pub struct CodeCache {
    /// pc -> compiled block; None = tried and not translatable.
    pub cache: HashMap<u64, Option<JitBlock>>,
    /// Number of cache entries that reference each table slot. Region functions
    /// have many references. Ordinary and batch members have one.
    pub slot_refs: HashMap<i32, usize>,
    pub owner_slots: Index<i32>,
    pub slot_owner: HashMap<i32, JitOwnerId>,
    /// Owner-local cache entries make retirement proportional to one module,
    /// not to the complete code cache.
    pub owner_entries: Index<u64>,
    pub owner_recency: Recency,
    /// Physical page -> pcs of cache entries whose code lives there (blocks
    /// AND pa-stamped blacklist sentinels). Lets dirty-page invalidation drop
    /// exactly the affected entries instead of scanning the whole cache.
    pub page_blocks: Index<u64>,
    /// Slot -> the (virtual page, physical page) list that multi-page code was
    /// compiled over, verified when a mapping may have moved.
    pub regions: HashMap<i32, Vec<PagePair>>,
    /// Slot -> live exit profile of a landed region function.
    pub region_exits: HashMap<i32, RegionExits>,
    /// Regions whose sampled out-of-region exit count asks for extension,
    /// awaiting a build slot at a quantum boundary.
    pub ext_queue: Vec<i32>,
    /// Module owner -> page of page-packed modules.
    pub page_module_owner: HashMap<JitOwnerId, PageKey>,
    /// One lifecycle record per address-space/code-page generation.
    pub page_modules: PageMap<PageModuleState>,
    pub table: SlotTable,
    pub use_stamp: u64,
}

/// The state of a [`CodeCache`].
#[verifier::ext_equal]
pub struct CodeView {
    pub cache: Map<u64, Option<JitBlock>>,
    pub slot_owner: Map<i32, JitOwnerId>,
    pub recency: Map<JitOwnerId, u64>,
    pub regions: Map<i32, Seq<PagePair>>,
    pub exits: Map<i32, ExitsView>,
    pub ext_queue: Seq<i32>,
    pub module_key: Map<JitOwnerId, PageKey>,
    pub modules: Map<PageKey, ModuleView>,
    pub table: TableView,
    pub stamp: u64,
}

impl View for CodeCache {
    type V = CodeView;

    open spec fn view(&self) -> CodeView {
        CodeView {
            cache: self.cache@,
            slot_owner: self.slot_owner@,
            recency: self.owner_recency@,
            regions: self.regions@.map_values(|pages: Vec<PagePair>| pages@),
            exits: self.region_exits@.map_values(|exits: RegionExits| exits@),
            ext_queue: self.ext_queue@,
            module_key: self.page_module_owner@,
            modules: self.page_modules@.map_values(|state: PageModuleState| state@),
            table: self.table@,
            stamp: self.use_stamp,
        }
    }
}

/// The number of the RAM page at a physical address.
pub open spec fn ram_page(pa: u64) -> u64 {
    ((pa - RAM_BASE) / 0x1000) as u64
}

/// The slot that a cache entry calls.
pub open spec fn slot_of(entry: Option<JitBlock>) -> Option<i32> {
    match entry {
        Some(block) => if block.idx >= 0 {
            Some(block.idx)
        } else {
            None
        },
        None => None,
    }
}

/// How many references are counted.
pub open spec fn count_of(refs: Map<i32, usize>, idx: i32) -> nat {
    if refs.contains_key(idx) {
        refs[idx] as nat
    } else {
        0
    }
}

/// Last uses with one more.
pub open spec fn touched(recency: Map<JitOwnerId, u64>, owner: JitOwnerId, stamp: u64) -> Map<
    JitOwnerId,
    u64,
> {
    if recency.contains_key(owner) && recency[owner] >= stamp {
        recency
    } else {
        recency.insert(owner, stamp)
    }
}

/// The modules after `owner`, which belonged to the page `key`, is gone.
pub open spec fn modules_without(
    modules: Map<PageKey, ModuleView>,
    key: PageKey,
    owner: JitOwnerId,
) -> Map<PageKey, ModuleView> {
    if !modules.contains_key(key) {
        modules
    } else {
        match modules[key] {
            ModuleView::Live(live) => if live.owner == owner {
                modules.remove(key)
            } else {
                modules
            },
            ModuleView::Pending { source, ticket, prior: Some(live) } => if live.owner == owner {
                modules.insert(key, ModuleView::Pending { source, ticket, prior: None })
            } else {
                modules
            },
            _ => modules,
        }
    }
}

/// The slot that the entry at `pc` calls.
pub open spec fn slot_in(cache: Map<u64, Option<JitBlock>>, pc: u64) -> Option<i32> {
    if cache.contains_key(pc) {
        slot_of(cache[pc])
    } else {
        None
    }
}

/// The entries that call a slot.
pub open spec fn uses_in(cache: Map<u64, Option<JitBlock>>, idx: i32) -> Set<u64> {
    Set::new(|pc: u64| slot_in(cache, pc) == Some(idx))
}

/// The owner of a slot.
pub open spec fn owner_in(owners: Map<i32, JitOwnerId>, slot: Option<i32>) -> Option<JitOwnerId> {
    match slot {
        Some(idx) => if owners.contains_key(idx) {
            Some(owners[idx])
        } else {
            None
        },
        None => None,
    }
}

/// Whether a module has a slot.
pub open spec fn owns_in(owners: Map<i32, JitOwnerId>, owner: JitOwnerId) -> bool {
    exists|idx: i32| #[trigger] owners.contains_key(idx) && owners[idx] == owner
}

/// The RAM pages that the code of a block lies on.
pub open spec fn pages_in(regions: Map<i32, Seq<PagePair>>, block: JitBlock) -> Seq<u64> {
    if regions.contains_key(block.idx) {
        regions[block.idx].map_values(|page: PagePair| ram_page(page.1))
    } else if block.pa >= RAM_BASE {
        seq![ram_page(block.pa)]
    } else {
        Seq::empty()
    }
}

/// Whether the code of the entry at `pc` lies on a RAM page.
pub open spec fn backs_in(
    cache: Map<u64, Option<JitBlock>>,
    regions: Map<i32, Seq<PagePair>>,
    page: u64,
    pc: u64,
) -> bool {
    cache.contains_key(pc) && (cache[pc] matches Some(block) && pages_in(regions, block).contains(
        page,
    ))
}

/// The references are those of the cache.
pub open spec fn refs_agree(cache: Map<u64, Option<JitBlock>>, refs: Map<i32, usize>) -> bool {
    &&& forall|idx: i32| #[trigger] count_of(refs, idx) == uses_in(cache, idx).len()
    &&& forall|idx: i32| #[trigger] refs.contains_key(idx) ==> refs[idx] > 0
}

/// The slots of each module are those that it owns.
pub open spec fn slots_agree(owners: Map<i32, JitOwnerId>, index: Index<i32>) -> bool {
    &&& index.wf()
    &&& forall|owner: JitOwnerId, idx: i32| #[trigger]
        index.has(owner, idx) <==> owners.contains_key(idx) && owners[idx] == owner
}

/// The entries of each module are those that run in it.
pub open spec fn entries_agree(
    cache: Map<u64, Option<JitBlock>>,
    owners: Map<i32, JitOwnerId>,
    index: Index<u64>,
) -> bool {
    &&& index.wf()
    &&& forall|owner: JitOwnerId, pc: u64| #[trigger]
        index.has(owner, pc) <==> owner_in(owners, slot_in(cache, pc)) == Some(owner)
}

/// The entries of each page are those whose code lies there.
pub open spec fn pages_agree(
    cache: Map<u64, Option<JitBlock>>,
    regions: Map<i32, Seq<PagePair>>,
    index: Index<u64>,
) -> bool {
    &&& index.wf()
    &&& forall|page: u64, pc: u64| #[trigger]
        index.has(page, pc) <==> backs_in(cache, regions, page, pc)
}

/// Every entry calls a slot that has an owner.
pub open spec fn slots_owned(cache: Map<u64, Option<JitBlock>>, owners: Map<i32, JitOwnerId>) -> bool {
    forall|pc: u64| (#[trigger] slot_in(cache, pc)) matches Some(idx) ==> owners.contains_key(idx)
}

/// Every slot that has an owner is in use.
pub open spec fn slots_live(owners: Map<i32, JitOwnerId>, live: Set<i32>) -> bool {
    forall|idx: i32| #[trigger] owners.contains_key(idx) ==> idx >= 0 && live.contains(idx)
}

/// Every module with a last use has a slot.
pub open spec fn uses_owned(recency: Map<JitOwnerId, u64>, owners: Map<i32, JitOwnerId>) -> bool {
    forall|owner: JitOwnerId| #[trigger] recency.contains_key(owner) ==> owns_in(owners, owner)
}

/// Multi-page code has a slot and lies in RAM.
pub open spec fn regions_wf(regions: Map<i32, Seq<PagePair>>) -> bool {
    &&& forall|idx: i32| #[trigger] regions.contains_key(idx) ==> idx >= 0
    &&& forall|idx: i32, k: int|
        regions.contains_key(idx) && 0 <= k < regions[idx].len() ==> (
        #[trigger] regions[idx][k]).1 >= RAM_BASE
}

impl CodeView {
    /// Nothing is compiled.
    pub open spec fn fresh() -> CodeView {
        CodeView {
            cache: Map::empty(),
            slot_owner: Map::empty(),
            recency: Map::empty(),
            regions: Map::empty(),
            exits: Map::empty(),
            ext_queue: Seq::empty(),
            module_key: Map::empty(),
            modules: Map::empty(),
            table: TableView {
                live: Set::empty(),
                peak: 0,
                retired: 0,
                retirements: Seq::empty(),
            },
            stamp: 0,
        }
    }

    /// The slot that the entry at `pc` calls.
    pub open spec fn slot_at(self, pc: u64) -> Option<i32> {
        slot_in(self.cache, pc)
    }

    /// The owner of a slot.
    pub open spec fn owner_of(self, slot: Option<i32>) -> Option<JitOwnerId> {
        owner_in(self.slot_owner, slot)
    }

    /// The module that the entry at `pc` runs in.
    pub open spec fn owner_at(self, pc: u64) -> Option<JitOwnerId> {
        self.owner_of(self.slot_at(pc))
    }

    /// The entries that call a slot.
    pub open spec fn uses(self, idx: i32) -> Set<u64> {
        uses_in(self.cache, idx)
    }

    /// Whether a module has a slot.
    pub open spec fn has_slots(self, owner: JitOwnerId) -> bool {
        owns_in(self.slot_owner, owner)
    }

    /// Every entry calls a slot that has an owner, every slot that has one is in
    /// use, every module with a last use has a slot, and code lies in RAM.
    pub open spec fn wf(self) -> bool {
        &&& slots_owned(self.cache, self.slot_owner)
        &&& slots_live(self.slot_owner, self.table.live)
        &&& uses_owned(self.recency, self.slot_owner)
        &&& regions_wf(self.regions)
    }

    /// The state after a module without slots is forgotten.
    pub open spec fn forgotten(self, owner: JitOwnerId) -> CodeView {
        CodeView {
            recency: self.recency.remove(owner),
            module_key: self.module_key.remove(owner),
            modules: if self.module_key.contains_key(owner) {
                modules_without(self.modules, self.module_key[owner], owner)
            } else {
                self.modules
            },
            ..self
        }
    }

    /// The state after a slot that nothing calls is released. A module is
    /// forgotten with its last slot.
    pub open spec fn without_slot(self, idx: i32, evicted: bool) -> CodeView {
        if !self.slot_owner.contains_key(idx) {
            self
        } else {
            let owner = self.slot_owner[idx];
            let after = CodeView {
                slot_owner: self.slot_owner.remove(idx),
                regions: self.regions.remove(idx),
                exits: self.exits.remove(idx),
                ext_queue: others(self.ext_queue, idx),
                table: self.table.retired_slot(idx, evicted),
                ..self
            };
            if after.has_slots(owner) {
                after
            } else {
                after.forgotten(owner)
            }
        }
    }

    /// The state after a slot lost a call: a slot that nothing calls any more
    /// is released.
    pub open spec fn released(self, slot: Option<i32>, evicted: bool) -> CodeView {
        match slot {
            Some(idx) => if self.uses(idx) =~= Set::empty() {
                self.without_slot(idx, evicted)
            } else {
                self
            },
            None => self,
        }
    }

    /// The state with another entry at `pc`, before the slot of the entry that
    /// was there is released.
    pub open spec fn with_entry(self, pc: u64, entry: Option<JitBlock>) -> CodeView {
        CodeView {
            cache: self.cache.insert(pc, entry),
            recency: match (self.owner_of(slot_of(entry)), entry) {
                (Some(owner), Some(block)) => touched(self.recency, owner, block.last_used),
                _ => self.recency,
            },
            ..self
        }
    }

    /// The state with another entry at `pc`.
    pub open spec fn inserted(self, pc: u64, entry: Option<JitBlock>) -> CodeView {
        let after = self.with_entry(pc, entry);
        if self.slot_at(pc) == slot_of(entry) {
            after
        } else {
            after.released(self.slot_at(pc), false)
        }
    }

    /// The state without an entry at `pc`.
    pub open spec fn dropped(self, pc: u64, evicted: bool) -> CodeView {
        CodeView { cache: self.cache.remove(pc), ..self }.released(self.slot_at(pc), evicted)
    }
}

impl CodeCache {
    /// The state is sound and every index agrees with the cache.
    pub open spec fn wf(&self) -> bool {
        &&& self@.wf()
        &&& self.owner_recency.wf()
        &&& refs_agree(self@.cache, self.slot_refs@)
        &&& slots_agree(self@.slot_owner, self.owner_slots)
        &&& entries_agree(self@.cache, self@.slot_owner, self.owner_entries)
        &&& pages_agree(self@.cache, self@.regions, self.page_blocks)
    }

    pub fn new() -> (code: CodeCache)
        ensures
            code.wf(),
            code@ == CodeView::fresh(),
    {
        let code = CodeCache {
            cache: HashMap::new(),
            slot_refs: HashMap::new(),
            owner_slots: Index::new(),
            slot_owner: HashMap::new(),
            owner_entries: Index::new(),
            owner_recency: Recency::new(),
            page_blocks: Index::new(),
            regions: HashMap::new(),
            region_exits: HashMap::new(),
            ext_queue: Vec::new(),
            page_module_owner: HashMap::new(),
            page_modules: PageMap::new(),
            table: SlotTable::new(),
            use_stamp: 0,
        };
        proof {
            assert(code@.regions =~= Map::empty());
            assert(code@.exits =~= Map::empty());
            assert(code@.ext_queue =~= Seq::empty());
            assert(code@.modules =~= Map::empty());
            assert forall|idx: i32| #[trigger]
                count_of(code.slot_refs@, idx) == code@.uses(idx).len() by {
                assert(code@.uses(idx) =~= Set::empty());
            }
        }
        code
    }

    /// The next stamp of a use.
    pub fn next_use_stamp(&mut self) -> (stamp: u64)
        ensures
            stamp == bumped(old(self)@.stamp),
            final(self)@ == (CodeView { stamp, ..old(self)@ }),
            old(self).wf() ==> final(self).wf(),
    {
        self.use_stamp = bump(self.use_stamp);
        self.use_stamp
    }

    /// Whether a module has slots.
    pub fn owns_slots(&self, owner: JitOwnerId) -> (r: bool)
        requires
            self.wf(),
        ensures
            r == self@.has_slots(owner),
    {
        proof {
            if self.owner_slots.lists().contains_key(owner) {
                let list = self.owner_slots.lists()[owner];
                assert(list.contains(list[0]));
                assert(self.owner_slots.has(owner, list[0]));
            } else if self@.has_slots(owner) {
                let idx = choose|idx: i32| #[trigger]
                    self@.slot_owner.contains_key(idx) && self@.slot_owner[idx] == owner;
                assert(self.owner_slots.has(owner, idx));
            }
        }
        self.owner_slots.contains_key(&owner)
    }

    /// The owner of a slot.
    pub fn owner_for_slot(&self, index: i32) -> (owner: Option<JitOwnerId>)
        ensures
            owner == if self@.slot_owner.contains_key(index) {
                Some(self@.slot_owner[index])
            } else {
                None
            },
    {
        match self.slot_owner.get(&index) {
            Some(owner) => Some(*owner),
            None => None,
        }
    }

    /// The entry at `pc`.
    pub fn entry(&self, pc: u64) -> (entry: Option<Option<JitBlock>>)
        ensures
            entry == if self@.cache.contains_key(pc) {
                Some(self@.cache[pc])
            } else {
                None
            },
    {
        match self.cache.get(&pc) {
            Some(entry) => Some(*entry),
            None => None,
        }
    }

    /// Note a use of a module.
    pub fn update_owner_recency(&mut self, owner: JitOwnerId, stamp: u64)
        requires
            old(self).wf(),
            old(self)@.has_slots(owner),
        ensures
            final(self).wf(),
            final(self)@ == (CodeView {
                recency: touched(old(self)@.recency, owner, stamp),
                ..old(self)@
            }),
    {
        self.owner_recency.update(owner, stamp);
    }
}

// ---- indexes -------------------------------------------------------------

/// Count one more reference.
fn count_up(refs: &mut HashMap<i32, usize>, idx: i32)
    requires
        count_of(old(refs)@, idx) < usize::MAX,
        forall|i: i32| #[trigger] old(refs)@.contains_key(i) ==> old(refs)@[i] > 0,
    ensures
        count_of(final(refs)@, idx) == count_of(old(refs)@, idx) + 1,
        forall|i: i32| i != idx ==> #[trigger] count_of(final(refs)@, i) == count_of(old(refs)@, i),
        forall|i: i32| #[trigger] final(refs)@.contains_key(i) ==> final(refs)@[i] > 0,
{
    let n: usize = match refs.get(&idx) {
        Some(n) => *n,
        None => 0,
    };
    refs.insert(idx, n + 1);
}

/// Count one reference less. Says whether it was the last.
fn count_down(refs: &mut HashMap<i32, usize>, idx: i32) -> (last: bool)
    requires
        count_of(old(refs)@, idx) > 0,
        forall|i: i32| #[trigger] old(refs)@.contains_key(i) ==> old(refs)@[i] > 0,
    ensures
        count_of(final(refs)@, idx) == count_of(old(refs)@, idx) - 1,
        forall|i: i32| i != idx ==> #[trigger] count_of(final(refs)@, i) == count_of(old(refs)@, i),
        forall|i: i32| #[trigger] final(refs)@.contains_key(i) ==> final(refs)@[i] > 0,
        last == (count_of(final(refs)@, idx) == 0),
{
    let n: usize = match refs.get(&idx) {
        Some(n) => *n,
        None => 0,
    };
    if n <= 1 {
        refs.remove(&idx);
        true
    } else {
        refs.insert(idx, n - 1);
        false
    }
}

/// List `pc` under every page.
fn enter_pages(index: &mut Index<u64>, pages: &[u64], pc: u64)
    requires
        old(index).wf(),
    ensures
        final(index).wf(),
        forall|page: u64, x: u64| #[trigger]
            final(index).has(page, x) <==> old(index).has(page, x) || (x == pc && pages@.contains(
                page,
            )),
{
    let mut i: usize = 0;
    while i < pages.len()
        invariant
            i <= pages@.len(),
            index.wf(),
            forall|page: u64, x: u64| #[trigger]
                index.has(page, x) <==> old(index).has(page, x) || (x == pc && exists|k: int|
                    0 <= k < i && #[trigger] pages@[k] == page),
        decreases pages@.len() - i,
    {
        index.enter(pages[i], pc);
        i = i + 1;
    }
}

/// Take `pc` off the list of every page.
fn strike_pages(index: &mut Index<u64>, pages: &[u64], pc: u64)
    requires
        old(index).wf(),
    ensures
        final(index).wf(),
        forall|page: u64, x: u64| #[trigger]
            final(index).has(page, x) <==> old(index).has(page, x) && !(x == pc && pages@.contains(
                page,
            )),
{
    let mut i: usize = 0;
    while i < pages.len()
        invariant
            i <= pages@.len(),
            index.wf(),
            forall|page: u64, x: u64| #[trigger]
                index.has(page, x) <==> old(index).has(page, x) && !(x == pc && exists|k: int|
                    0 <= k < i && #[trigger] pages@[k] == page),
        decreases pages@.len() - i,
    {
        index.strike(pages[i], pc);
        i = i + 1;
    }
}

// ---- entries and slots ---------------------------------------------------

proof fn lemma_uses_finite(cache: Map<u64, Option<JitBlock>>, idx: i32)
    requires
        cache.dom().finite(),
    ensures
        uses_in(cache, idx).finite(),
        uses_in(cache, idx).len() <= cache.dom().len(),
{
    assert(uses_in(cache, idx).subset_of(cache.dom()));
    vstd::set_lib::lemma_len_subset(uses_in(cache, idx), cache.dom());
}

/// What a change of one entry does to the calls of a slot.
proof fn lemma_uses_insert(
    cache: Map<u64, Option<JitBlock>>,
    pc: u64,
    entry: Option<JitBlock>,
    idx: i32,
)
    requires
        cache.dom().finite(),
    ensures
        uses_in(cache.insert(pc, entry), idx).len() == uses_in(cache, idx).len() + (if slot_of(
            entry,
        ) == Some(idx) {
            1int
        } else {
            0
        }) - (if slot_in(cache, pc) == Some(idx) {
            1int
        } else {
            0
        }),
{
    let now = cache.insert(pc, entry);
    lemma_uses_finite(cache, idx);
    let was = uses_in(cache, idx);
    if slot_of(entry) == Some(idx) {
        assert(uses_in(now, idx) =~= was.insert(pc));
    } else {
        assert(uses_in(now, idx) =~= was.remove(pc));
    }
}

proof fn lemma_uses_remove(cache: Map<u64, Option<JitBlock>>, pc: u64, idx: i32)
    requires
        cache.dom().finite(),
    ensures
        uses_in(cache.remove(pc), idx).len() == uses_in(cache, idx).len() - (if slot_in(cache, pc)
            == Some(idx) {
            1int
        } else {
            0
        }),
{
    lemma_uses_finite(cache, idx);
    assert(uses_in(cache.remove(pc), idx) =~= uses_in(cache, idx).remove(pc));
}

proof fn lemma_no_uses(cache: Map<u64, Option<JitBlock>>, idx: i32)
    requires
        cache.dom().finite(),
    ensures
        uses_in(cache, idx).len() == 0 <==> uses_in(cache, idx) =~= Set::empty(),
        uses_in(cache, idx) =~= Set::empty() <==> forall|pc: u64| #[trigger]
            slot_in(cache, pc) != Some(idx),
{
    lemma_uses_finite(cache, idx);
    if uses_in(cache, idx).len() == 0 {
        uses_in(cache, idx).lemma_len0_is_empty();
    }
    if uses_in(cache, idx) =~= Set::empty() {
        assert forall|pc: u64| #[trigger] slot_in(cache, pc) != Some(idx) by {
            assert(!uses_in(cache, idx).contains(pc));
        }
    }
}

impl CodeCache {
    fn block_physical_pages(&self, block: JitBlock) -> (pages: Vec<u64>)
        requires
            regions_wf(self@.regions),
        ensures
            pages@ == pages_in(self@.regions, block),
    {
        let mut pages: Vec<u64> = Vec::new();
        match self.regions.get(&block.idx) {
            Some(region) => {
                let mut i: usize = 0;
                assert(self@.regions[block.idx] == region@);
                let ghost all = pages_in(self@.regions, block);
                while i < region.len()
                    invariant
                        i <= region@.len(),
                        all == region@.map_values(|page: PagePair| ram_page(page.1)),
                        forall|k: int|
                            0 <= k < region@.len() ==> (#[trigger] region@[k]).1 >= RAM_BASE,
                        pages@ == all.subrange(0, i as int),
                    decreases region@.len() - i,
                {
                    pages.push((region[i].1 - RAM_BASE) / 0x1000);
                    i = i + 1;
                    assert(pages@ =~= all.subrange(0, i as int));
                }
                assert(pages@ =~= all);
            },
            None => {
                if block.pa >= RAM_BASE {
                    pages.push((block.pa - RAM_BASE) / 0x1000);
                }
                assert(pages@ =~= pages_in(self@.regions, block));
            },
        }
        pages
    }

    /// Forget which page a module was compiled for.
    fn forget_module(&mut self, owner: JitOwnerId)
        ensures
            old(self).wf() ==> final(self).wf(),
            final(self)@ == (CodeView {
                module_key: old(self)@.forgotten(owner).module_key,
                modules: old(self)@.forgotten(owner).modules,
                ..old(self)@
            }),
    {
        let ghost was = self@;
        match self.page_module_owner.remove(&owner) {
            None => {},
            Some(key) => {
                let ghost states = self.page_modules@;
                match self.page_modules.remove(&key) {
                    None => {
                        assert(self.page_modules@ =~= states);
                    },
                    Some(PageModuleState::Live(live)) => {
                        if live.owner != owner {
                            self.page_modules.insert(key, PageModuleState::Live(live));
                            assert(self.page_modules@ =~= states);
                        }
                    },
                    Some(PageModuleState::Pending { source, ticket, prior }) => {
                        let keep = match &prior {
                            Some(live) => live.owner != owner,
                            None => true,
                        };
                        if keep {
                            self.page_modules.insert(
                                key,
                                PageModuleState::Pending { source, ticket, prior },
                            );
                            assert(self.page_modules@ =~= states);
                        } else {
                            self.page_modules.insert(
                                key,
                                PageModuleState::Pending { source, ticket, prior: None },
                            );
                        }
                    },
                    Some(PageModuleState::Attempted(source)) => {
                        self.page_modules.insert(key, PageModuleState::Attempted(source));
                        assert(self.page_modules@ =~= states);
                    },
                }
            },
        }
        assert(self@.modules =~= was.forgotten(owner).modules);
    }

    /// Release a slot that no entry calls.
    fn retire_owned_slot(&mut self, idx: i32, evicted: bool)
        requires
            old(self).wf(),
            old(self)@.uses(idx) =~= Set::empty(),
        ensures
            final(self).wf(),
            final(self)@ == old(self)@.without_slot(idx, evicted),
    {
        let ghost was = self@;
        let owner: JitOwnerId = match self.slot_owner.remove(&idx) {
            None => {
                assert(self.slot_owner@ =~= old(self).slot_owner@);
                assert(self@ =~= was);
                return;
            },
            Some(owner) => owner,
        };
        self.owner_slots.strike(owner, idx);
        self.regions.remove(&idx);
        self.region_exits.remove(&idx);
        let kept: Vec<i32> = without(self.ext_queue.as_slice(), idx);
        self.ext_queue = kept;
        self.table.retire(idx, evicted);
        let ghost between = self@;
        let more: bool = self.owner_slots.contains_key(&owner);
        proof {
            lemma_no_uses(was.cache, idx);
            assert(between.regions =~= was.regions.remove(idx));
            assert(between.exits =~= was.exits.remove(idx));
            assert(between.slot_owner == was.slot_owner.remove(idx));
            assert forall|page: u64, pc: u64| #[trigger]
                self.page_blocks.has(page, pc) <==> backs_in(
                    between.cache,
                    between.regions,
                    page,
                    pc,
                ) by {
                if was.cache.contains_key(pc) && was.cache[pc] is Some {
                    let block = was.cache[pc]->0;
                    assert(slot_in(was.cache, pc) != Some(idx));
                    assert(block.idx != idx) by {
                        if block.idx == idx {
                            assert(was.slot_owner.contains_key(idx));
                        }
                    }
                    assert(pages_in(between.regions, block) == pages_in(was.regions, block));
                }
            }
            assert forall|o: JitOwnerId, pc: u64| #[trigger]
                self.owner_entries.has(o, pc) <==> owner_in(
                    between.slot_owner,
                    slot_in(between.cache, pc),
                ) == Some(o) by {
                assert(slot_in(was.cache, pc) != Some(idx));
            }
            assert(slots_owned(between.cache, between.slot_owner)) by {
                assert forall|pc: u64|
                    (#[trigger] slot_in(between.cache, pc)) is Some implies between.slot_owner.contains_key(
                    slot_in(between.cache, pc)->0,
                ) by {
                    assert(slot_in(was.cache, pc) != Some(idx));
                }
            }
            assert(more == owns_in(between.slot_owner, owner)) by {
                if more {
                    let list = self.owner_slots.lists()[owner];
                    assert(list.contains(list[0]));
                    assert(self.owner_slots.has(owner, list[0]));
                    assert(between.slot_owner.contains_key(list[0]));
                }
                if owns_in(between.slot_owner, owner) {
                    let i = choose|i: i32| #[trigger]
                        between.slot_owner.contains_key(i) && between.slot_owner[i] == owner;
                    assert(self.owner_slots.has(owner, i));
                }
            }
            assert forall|o: JitOwnerId| o != owner && owns_in(was.slot_owner, o) implies owns_in(
                between.slot_owner,
                o,
            ) by {
                let i = choose|i: i32| #[trigger]
                    was.slot_owner.contains_key(i) && was.slot_owner[i] == o;
                assert(between.slot_owner.contains_key(i));
            }
        }
        if !more {
            self.forget_owner(owner);
        }
    }

    /// Forget a module that has no slot left. Only its last use may still speak
    /// of it.
    fn forget_owner(&mut self, owner: JitOwnerId)
        requires
            old(self).owner_recency.wf(),
            slots_owned(old(self)@.cache, old(self)@.slot_owner),
            slots_live(old(self)@.slot_owner, old(self)@.table.live),
            uses_owned(old(self)@.recency.remove(owner), old(self)@.slot_owner),
            regions_wf(old(self)@.regions),
            refs_agree(old(self)@.cache, old(self).slot_refs@),
            slots_agree(old(self)@.slot_owner, old(self).owner_slots),
            entries_agree(old(self)@.cache, old(self)@.slot_owner, old(self).owner_entries),
            pages_agree(old(self)@.cache, old(self)@.regions, old(self).page_blocks),
        ensures
            final(self).wf(),
            final(self)@ == old(self)@.forgotten(owner),
    {
        let ghost was = self@;
        self.owner_recency.remove(&owner);
        self.forget_module(owner);
        assert(self@ =~= was.forgotten(owner));
    }
}

impl CodeView {
    /// The state after the slots among the first `n` that are slot numbers were
    /// given to `owner`.
    pub open spec fn with_slots(self, owner: JitOwnerId, slots: Seq<i32>, n: int) -> CodeView
        decreases n,
    {
        if n <= 0 {
            self
        } else {
            let before = self.with_slots(owner, slots, n - 1);
            let idx = slots[n - 1];
            if idx < 0 {
                before
            } else {
                CodeView {
                    slot_owner: before.slot_owner.insert(idx, owner),
                    table: before.table.registered(idx),
                    ..before
                }
            }
        }
    }

    /// The state after a module came with these slots.
    pub open spec fn with_module(self, owner: JitOwnerId, slots: Seq<i32>) -> CodeView {
        if has_slot_number(slots) {
            let with = self.with_slots(owner, slots, slots.len() as int);
            CodeView {
                recency: touched(with.recency, owner, bumped(self.stamp)),
                stamp: bumped(self.stamp),
                ..with
            }
        } else {
            self
        }
    }
}

/// Whether any of these is a slot number.
pub open spec fn has_slot_number(slots: Seq<i32>) -> bool {
    exists|k: int| 0 <= k < slots.len() && #[trigger] slots[k] >= 0
}

/// Whether a module may come with these slots: it is not there yet, and no slot
/// has an owner or is listed twice.
pub open spec fn may_track(v: CodeView, owner: JitOwnerId, slots: Seq<i32>) -> bool {
    &&& has_slot_number(slots) ==> !v.has_slots(owner)
    &&& forall|k: int|
        0 <= k < slots.len() && slots[k] >= 0 ==> !v.slot_owner.contains_key(#[trigger] slots[k])
    &&& forall|j: int, k: int|
        0 <= j < k < slots.len() && slots[j] >= 0 ==> #[trigger] slots[j] != #[trigger] slots[k]
}

impl CodeCache {
    /// Give a slot that nothing calls to a module.
    fn give_slot(&mut self, owner: JitOwnerId, idx: i32)
        requires
            old(self).wf(),
            idx >= 0,
            !old(self)@.slot_owner.contains_key(idx),
        ensures
            final(self).wf(),
            final(self)@ == (CodeView {
                slot_owner: old(self)@.slot_owner.insert(idx, owner),
                table: old(self)@.table.registered(idx),
                ..old(self)@
            }),
    {
        let ghost was = self@;
        self.table.register(idx);
        self.slot_owner.insert(idx, owner);
        self.owner_slots.enter(owner, idx);
        proof {
            let now = self@;
            assert forall|pc: u64| #[trigger] slot_in(was.cache, pc) != Some(idx) by {
                if slot_in(was.cache, pc) == Some(idx) {
                    assert(was.slot_owner.contains_key(idx));
                }
            }
            assert forall|o: JitOwnerId, pc: u64| #[trigger]
                self.owner_entries.has(o, pc) <==> owner_in(now.slot_owner, slot_in(now.cache, pc))
                    == Some(o) by {
                assert(slot_in(was.cache, pc) != Some(idx));
            }
            assert forall|o: JitOwnerId| owns_in(was.slot_owner, o) implies owns_in(
                now.slot_owner,
                o,
            ) by {
                let i = choose|i: i32| #[trigger]
                    was.slot_owner.contains_key(i) && was.slot_owner[i] == o;
                assert(now.slot_owner.contains_key(i));
            }
        }
    }

    /// Take in a module with its slots. What is no slot number is passed over; a
    /// module without slots is not taken in.
    pub fn track_owner(&mut self, owner: JitOwnerId, slots: &[i32]) -> (r: Option<JitOwnerId>)
        requires
            old(self).wf(),
            may_track(old(self)@, owner, slots@),
        ensures
            final(self).wf(),
            final(self)@ == old(self)@.with_module(owner, slots@),
            r == if has_slot_number(slots@) {
                Some(owner)
            } else {
                None
            },
    {
        let ghost was = self@;
        let mut any: bool = false;
        let mut i: usize = 0;
        while i < slots.len()
            invariant
                i <= slots@.len(),
                self.wf(),
                may_track(was, owner, slots@),
                self@ == was.with_slots(owner, slots@, i as int),
                self@.recency == was.recency,
                self@.stamp == was.stamp,
                any == exists|k: int| 0 <= k < i && #[trigger] slots@[k] >= 0,
                any ==> owns_in(self@.slot_owner, owner),
                forall|idx: i32| #[trigger]
                    self@.slot_owner.contains_key(idx) <==> was.slot_owner.contains_key(idx) || (
                    idx >= 0 && exists|k: int| 0 <= k < i && #[trigger] slots@[k] == idx),
            decreases slots@.len() - i,
        {
            let idx: i32 = slots[i];
            if idx >= 0 {
                assert(!self@.slot_owner.contains_key(idx));
                self.give_slot(owner, idx);
                any = true;
                assert(self@.slot_owner.contains_key(idx));
            }
            i = i + 1;
        }
        if !any {
            proof {
                lemma_without_slot_numbers(was, owner, slots@, slots@.len() as int);
            }
            return None;
        }
        let stamp: u64 = self.next_use_stamp();
        self.update_owner_recency(owner, stamp);
        Some(owner)
    }

    /// Put an entry in place of the one at `pc`. A slot that the entry before
    /// was the last to call is released.
    pub fn cache_insert(&mut self, pc: u64, entry: Option<JitBlock>) -> (previous: Option<
        Option<JitBlock>,
    >)
        requires
            old(self).wf(),
            slot_of(entry) matches Some(idx) ==> old(self)@.slot_owner.contains_key(idx),
        ensures
            final(self).wf(),
            final(self)@ == old(self)@.inserted(pc, entry),
            previous == if old(self)@.cache.contains_key(pc) {
                Some(old(self)@.cache[pc])
            } else {
                None
            },
    {
        let ghost was = self@;
        let previous: Option<Option<JitBlock>> = self.cache.insert(pc, entry);
        let ghost mid = was.cache.insert(pc, entry);
        let n: usize = self.cache.len();
        let old_idx: Option<i32> = slot_number(match previous {
            Some(previous) => previous,
            None => None,
        });
        let new_idx: Option<i32> = slot_number(entry);
        assert(old_idx == slot_in(was.cache, pc));
        // pages
        match previous {
            Some(Some(block)) => {
                let pages: Vec<u64> = self.block_physical_pages(block);
                strike_pages(&mut self.page_blocks, pages.as_slice(), pc);
            },
            _ => {},
        }
        assert forall|page: u64, x: u64| #[trigger] self.page_blocks.has(page, x) <==> x != pc
            && backs_in(was.cache, was.regions, page, x) by {
        }
        match entry {
            Some(block) => {
                let pages: Vec<u64> = self.block_physical_pages(block);
                enter_pages(&mut self.page_blocks, pages.as_slice(), pc);
            },
            _ => {},
        }
        assert(pages_agree(mid, was.regions, self.page_blocks)) by {
            assert forall|page: u64, x: u64| #[trigger] self.page_blocks.has(page, x) <==> backs_in(
                mid,
                was.regions,
                page,
                x,
            ) by {
            }
        }
        // owners
        let old_owner: Option<JitOwnerId> = self.owner_of_slot(old_idx);
        let new_owner: Option<JitOwnerId> = self.owner_of_slot(new_idx);
        if old_owner != new_owner {
            match old_owner {
                Some(owner) => self.owner_entries.strike(owner, pc),
                None => {},
            }
            match new_owner {
                Some(owner) => self.owner_entries.enter(owner, pc),
                None => {},
            }
        }
        assert(entries_agree(mid, was.slot_owner, self.owner_entries)) by {
            assert forall|o: JitOwnerId, x: u64| #[trigger]
                self.owner_entries.has(o, x) <==> owner_in(was.slot_owner, slot_in(mid, x))
                    == Some(o) by {
                assert(owner_in(was.slot_owner, slot_in(was.cache, pc)) == old_owner);
                assert(owner_in(was.slot_owner, slot_in(mid, pc)) == new_owner);
                if x != pc {
                    assert(slot_in(mid, x) == slot_in(was.cache, x));
                }
            }
        }
        match (new_owner, entry) {
            (Some(owner), Some(block)) => {
                self.owner_recency.update(owner, block.last_used);
                proof {
                    assert(was.slot_owner.contains_key(new_idx->0));
                    assert(owns_in(was.slot_owner, owner));
                }
            },
            _ => {},
        }
        // references
        if old_idx == new_idx {
            proof {
                assert forall|idx: i32| #[trigger]
                    count_of(self.slot_refs@, idx) == uses_in(mid, idx).len() by {
                    lemma_uses_insert(was.cache, pc, entry, idx);
                }
            }
            assert(slots_owned(mid, was.slot_owner)) by {
                lemma_entry_owned(was, pc, entry);
            }
            assert(self@ =~= was.with_entry(pc, entry));
            return previous;
        }
        match new_idx {
            Some(idx) => {
                proof {
                    lemma_uses_insert(was.cache, pc, entry, idx);
                    lemma_uses_finite(mid, idx);
                    assert(count_of(self.slot_refs@, idx) < n);
                }
                count_up(&mut self.slot_refs, idx);
            },
            None => {},
        }
        let mut last: bool = false;
        match old_idx {
            Some(idx) => {
                proof {
                    assert(uses_in(was.cache, idx).contains(pc));
                    lemma_uses_finite(was.cache, idx);
                    lemma_no_uses(was.cache, idx);
                }
                last = count_down(&mut self.slot_refs, idx);
            },
            None => {},
        }
        proof {
            assert forall|idx: i32| #[trigger]
                count_of(self.slot_refs@, idx) == uses_in(mid, idx).len() by {
                lemma_uses_insert(was.cache, pc, entry, idx);
                assert(count_of(old(self).slot_refs@, idx) == uses_in(was.cache, idx).len());
            }
            lemma_entry_owned(was, pc, entry);
            assert(self@ =~= was.with_entry(pc, entry));
            if old_idx is Some {
                lemma_no_uses(mid, old_idx->0);
                assert(last == (count_of(self.slot_refs@, old_idx->0) == 0));
            }
        }
        match old_idx {
            Some(idx) => {
                if last {
                    self.retire_owned_slot(idx, false);
                }
            },
            None => {},
        }
        previous
    }

    fn owner_of_slot(&self, slot: Option<i32>) -> (owner: Option<JitOwnerId>)
        ensures
            owner == owner_in(self@.slot_owner, slot),
    {
        match slot {
            Some(idx) => self.owner_for_slot(idx),
            None => None,
        }
    }

    /// Drop the entry at `pc`. A slot that it was the last to call is released.
    pub fn cache_remove(&mut self, pc: u64, evicted: bool) -> (previous: Option<Option<JitBlock>>)
        requires
            old(self).wf(),
        ensures
            final(self).wf(),
            final(self)@ == old(self)@.dropped(pc, evicted),
            previous == if old(self)@.cache.contains_key(pc) {
                Some(old(self)@.cache[pc])
            } else {
                None
            },
    {
        let ghost was = self@;
        let previous: Option<Option<JitBlock>> = self.cache.remove(&pc);
        let ghost mid = was.cache.remove(pc);
        let block: JitBlock = match previous {
            Some(Some(block)) => block,
            _ => {
                proof {
                    assert forall|idx: i32| #[trigger]
                        count_of(self.slot_refs@, idx) == uses_in(mid, idx).len() by {
                        lemma_uses_remove(was.cache, pc, idx);
                    }
                    lemma_without_entry(was, pc);
                    assert forall|o: JitOwnerId, x: u64| #[trigger]
                        self.owner_entries.has(o, x) <==> owner_in(
                            was.slot_owner,
                            slot_in(mid, x),
                        ) == Some(o) by {
                        assert(slot_in(mid, x) == slot_in(was.cache, x));
                    }
                    assert forall|page: u64, x: u64| #[trigger]
                        self.page_blocks.has(page, x) <==> backs_in(mid, was.regions, page, x) by {
                        assert(backs_in(mid, was.regions, page, x) == backs_in(
                            was.cache,
                            was.regions,
                            page,
                            x,
                        ));
                    }
                    assert(self@ =~= was.dropped(pc, evicted));
                }
                return previous;
            },
        };
        let pages: Vec<u64> = self.block_physical_pages(block);
        strike_pages(&mut self.page_blocks, pages.as_slice(), pc);
        assert(pages_agree(mid, was.regions, self.page_blocks)) by {
            assert forall|page: u64, x: u64| #[trigger] self.page_blocks.has(page, x) <==> backs_in(
                mid,
                was.regions,
                page,
                x,
            ) by {
            }
        }
        let mut last: bool = false;
        if block.idx >= 0 {
            assert(slot_in(was.cache, pc) == Some(block.idx));
            match self.owner_for_slot(block.idx) {
                Some(owner) => self.owner_entries.strike(owner, pc),
                None => {},
            }
            proof {
                assert(uses_in(was.cache, block.idx).contains(pc));
                lemma_uses_finite(was.cache, block.idx);
                lemma_no_uses(was.cache, block.idx);
            }
            last = count_down(&mut self.slot_refs, block.idx);
        }
        proof {
            assert forall|idx: i32| #[trigger]
                count_of(self.slot_refs@, idx) == uses_in(mid, idx).len() by {
                lemma_uses_remove(was.cache, pc, idx);
                assert(count_of(old(self).slot_refs@, idx) == uses_in(was.cache, idx).len());
            }
            lemma_without_entry(was, pc);
            assert forall|o: JitOwnerId, x: u64| #[trigger]
                self.owner_entries.has(o, x) <==> owner_in(was.slot_owner, slot_in(mid, x))
                    == Some(o) by {
                if x != pc {
                    assert(slot_in(mid, x) == slot_in(was.cache, x));
                }
            }
            assert(self@ =~= (CodeView { cache: mid, ..was }));
            if block.idx >= 0 {
                lemma_no_uses(mid, block.idx);
            }
        }
        if last {
            self.retire_owned_slot(block.idx, evicted);
        }
        previous
    }
}

/// The slot that an entry calls.
pub fn slot_number(entry: Option<JitBlock>) -> (slot: Option<i32>)
    ensures
        slot == slot_of(entry),
{
    match entry {
        Some(block) => if block.idx >= 0 {
            Some(block.idx)
        } else {
            None
        },
        None => None,
    }
}

proof fn lemma_entry_owned(v: CodeView, pc: u64, entry: Option<JitBlock>)
    requires
        slots_owned(v.cache, v.slot_owner),
        slot_of(entry) matches Some(idx) ==> v.slot_owner.contains_key(idx),
    ensures
        slots_owned(v.cache.insert(pc, entry), v.slot_owner),
{
    let now = v.cache.insert(pc, entry);
    assert forall|x: u64|
        (#[trigger] slot_in(now, x)) is Some implies v.slot_owner.contains_key(
        slot_in(now, x)->0,
    ) by {
        if x != pc {
            assert(slot_in(now, x) == slot_in(v.cache, x));
        }
    }
}

proof fn lemma_without_entry(v: CodeView, pc: u64)
    requires
        slots_owned(v.cache, v.slot_owner),
    ensures
        slots_owned(v.cache.remove(pc), v.slot_owner),
{
    let now = v.cache.remove(pc);
    assert forall|x: u64|
        (#[trigger] slot_in(now, x)) is Some implies v.slot_owner.contains_key(
        slot_in(now, x)->0,
    ) by {
        assert(slot_in(now, x) == slot_in(v.cache, x));
    }
}

proof fn lemma_without_slot_numbers(v: CodeView, owner: JitOwnerId, slots: Seq<i32>, n: int)
    requires
        0 <= n <= slots.len(),
        !has_slot_number(slots),
    ensures
        v.with_slots(owner, slots, n) == v,
    decreases n,
{
    if n > 0 {
        lemma_without_slot_numbers(v, owner, slots, n - 1);
        assert(slots[n - 1] < 0);
    }
}

// ---- retiring a module ---------------------------------------------------

/// The items that are in no one of `gone`, in their order.
pub open spec fn clear_of(list: Seq<i32>, gone: Set<i32>) -> Seq<i32>
    decreases list.len(),
{
    if list.len() == 0 {
        list
    } else if gone.contains(list.last()) {
        clear_of(list.drop_last(), gone)
    } else {
        clear_of(list.drop_last(), gone).push(list.last())
    }
}

proof fn lemma_clear_of_more(list: Seq<i32>, gone: Set<i32>, idx: i32)
    ensures
        others(clear_of(list, gone), idx) == clear_of(list, gone.insert(idx)),
    decreases list.len(),
{
    if list.len() > 0 {
        lemma_clear_of_more(list.drop_last(), gone, idx);
        let front = clear_of(list.drop_last(), gone);
        if !gone.contains(list.last()) {
            assert(front.push(list.last()).drop_last() =~= front);
        }
    }
}

proof fn lemma_clear_of_none(list: Seq<i32>)
    ensures
        clear_of(list, Set::empty()) == list,
    decreases list.len(),
{
    if list.len() > 0 {
        lemma_clear_of_none(list.drop_last());
        assert(list.drop_last().push(list.last()) =~= list);
    }
}

/// Whether a table is another one after exactly the slots in `gone` were
/// released, each once, in some order.
pub open spec fn table_released(was: TableView, now: TableView, gone: Set<i32>, evicted: bool) -> bool {
    &&& now.live == was.live.difference(gone)
    &&& now.peak == was.peak
    &&& now.retired == (was.retired + gone.len()) % 0x1_0000_0000_0000_0000
    &&& now.retirements.len() == was.retirements.len() + gone.len()
    &&& was.retirements =~= now.retirements.subrange(0, was.retirements.len() as int)
    &&& forall|idx: i32| #[trigger]
        gone.contains(idx) <==> exists|k: int|
            was.retirements.len() <= k < now.retirements.len() && (
            #[trigger] now.retirements[k]).slot == idx
    &&& forall|k: int|
        was.retirements.len() <= k < now.retirements.len() ==> (
        #[trigger] now.retirements[k]).evicted == evicted
}

proof fn lemma_table_release(
    was: TableView,
    now: TableView,
    gone: Set<i32>,
    evicted: bool,
    idx: i32,
)
    requires
        table_released(was, now, gone, evicted),
        gone.finite(),
        idx >= 0,
        was.live.contains(idx),
        !gone.contains(idx),
    ensures
        table_released(was, now.retired_slot(idx, evicted), gone.insert(idx), evicted),
{
    let after = now.retired_slot(idx, evicted);
    let more = gone.insert(idx);
    assert(after.live =~= was.live.difference(more));
    assert(more.len() == gone.len() + 1);
    assert(after.retirements[now.retirements.len() as int].slot == idx);
    assert forall|i: i32| #[trigger] more.contains(i) <==> exists|k: int|
        was.retirements.len() <= k < after.retirements.len() && (
        #[trigger] after.retirements[k]).slot == i by {
        if gone.contains(i) {
            let k = choose|k: int|
                was.retirements.len() <= k < now.retirements.len() && (
                #[trigger] now.retirements[k]).slot == i;
            assert(after.retirements[k].slot == i);
        }
        if exists|k: int|
            was.retirements.len() <= k < after.retirements.len() && (
            #[trigger] after.retirements[k]).slot == i {
            let k = choose|k: int|
                was.retirements.len() <= k < after.retirements.len() && (
                #[trigger] after.retirements[k]).slot == i;
            if k < now.retirements.len() {
                assert(now.retirements[k].slot == i);
            }
        }
    }
}

impl CodeView {
    /// The slots of a module.
    pub open spec fn slots_of(self, owner: JitOwnerId) -> Set<i32> {
        Set::new(|idx: i32| self.slot_owner.contains_key(idx) && self.slot_owner[idx] == owner)
    }

    /// The entries that run in a module.
    pub open spec fn entries_of(self, owner: JitOwnerId) -> Set<u64> {
        Set::new(|pc: u64| self.owner_at(pc) == Some(owner))
    }

    /// Whether `now` is this state after slots of `owner` were released, and the
    /// module forgotten with the last of them. The cache is left open.
    pub open spec fn stripped(
        self,
        now: CodeView,
        gone: Set<i32>,
        owner: JitOwnerId,
        evicted: bool,
    ) -> bool {
        let last = gone.len() > 0 && !now.has_slots(owner);
        &&& now.slot_owner == self.slot_owner.remove_keys(gone)
        &&& now.regions == self.regions.remove_keys(gone)
        &&& now.exits == self.exits.remove_keys(gone)
        &&& now.ext_queue == clear_of(self.ext_queue, gone)
        &&& table_released(self.table, now.table, gone, evicted)
        &&& now.stamp == self.stamp
        &&& now.recency == if last {
            self.forgotten(owner).recency
        } else {
            self.recency
        }
        &&& now.module_key == if last {
            self.forgotten(owner).module_key
        } else {
            self.module_key
        }
        &&& now.modules == if last {
            self.forgotten(owner).modules
        } else {
            self.modules
        }
    }

    /// Whether `now` is this state after a complete module was retired: its
    /// entries are gone from the cache, its slots are released, and nothing
    /// else has changed.
    pub open spec fn without_module(self, now: CodeView, owner: JitOwnerId, evicted: bool) -> bool {
        let gone = self.slots_of(owner);
        &&& now.cache == self.cache.remove_keys(self.entries_of(owner))
        &&& now.slot_owner == self.slot_owner.remove_keys(gone)
        &&& now.regions == self.regions.remove_keys(gone)
        &&& now.exits == self.exits.remove_keys(gone)
        &&& now.ext_queue == clear_of(self.ext_queue, gone)
        &&& table_released(self.table, now.table, gone, evicted)
        &&& now.stamp == self.stamp
        &&& now.recency == self.forgotten(owner).recency
        &&& now.module_key == self.forgotten(owner).module_key
        &&& now.modules == self.forgotten(owner).modules
    }
}

proof fn lemma_strip(
    was: CodeView,
    now: CodeView,
    gone: Set<i32>,
    owner: JitOwnerId,
    evicted: bool,
    idx: i32,
)
    requires
        was.stripped(now, gone, owner, evicted),
        gone.finite(),
        slots_live(was.slot_owner, was.table.live),
        now.slot_owner.contains_key(idx),
        now.slot_owner[idx] == owner,
    ensures
        was.stripped(now.without_slot(idx, evicted), gone.insert(idx), owner, evicted),
{
    let after = now.without_slot(idx, evicted);
    let more = gone.insert(idx);
    assert(was.slot_owner.contains_key(idx) && !gone.contains(idx));
    assert(after.slot_owner =~= was.slot_owner.remove_keys(more));
    assert(after.regions =~= was.regions.remove_keys(more));
    assert(after.exits =~= was.exits.remove_keys(more));
    lemma_clear_of_more(was.ext_queue, gone, idx);
    lemma_table_release(was.table, now.table, gone, evicted, idx);
    assert(now.has_slots(owner));
    assert(more.len() > 0);
}

/// Releasing slots in two goes is releasing all of them.
proof fn lemma_strip_all(
    was: CodeView,
    mid: CodeView,
    now: CodeView,
    gone: Set<i32>,
    rest: Set<i32>,
    owner: JitOwnerId,
    evicted: bool,
)
    requires
        was.stripped(mid, gone, owner, evicted),
        mid.stripped(now, rest, owner, evicted),
        gone.finite(),
        rest.finite(),
        gone.subset_of(was.slots_of(owner)),
        rest =~= mid.slots_of(owner),
    ensures
        gone.union(rest) =~= was.slots_of(owner),
        was.stripped(now, was.slots_of(owner), owner, evicted),
{
    let all = was.slots_of(owner);
    assert(gone.union(rest) =~= all);
    assert(gone.disjoint(rest));
    vstd::set_lib::lemma_set_disjoint_lens(gone, rest);
    assert(now.slot_owner =~= was.slot_owner.remove_keys(all));
    assert(now.regions =~= was.regions.remove_keys(all));
    assert(now.exits =~= was.exits.remove_keys(all));
    lemma_clear_of_union(was.ext_queue, gone, rest);
    assert(!now.has_slots(owner)) by {
        if now.has_slots(owner) {
            let i = choose|i: i32| #[trigger]
                now.slot_owner.contains_key(i) && now.slot_owner[i] == owner;
            assert(all.contains(i));
        }
    }
    if rest.len() == 0 {
        rest.lemma_len0_is_empty();
        assert(gone =~= all);
        assert(!mid.has_slots(owner)) by {
            if mid.has_slots(owner) {
                let i = choose|i: i32| #[trigger]
                    mid.slot_owner.contains_key(i) && mid.slot_owner[i] == owner;
                assert(rest.contains(i));
            }
        }
    } else {
        let i = rest.choose();
        assert(rest.contains(i));
        assert(mid.slot_owner.contains_key(i) && mid.slot_owner[i] == owner);
        assert(mid.has_slots(owner));
        assert(all.contains(i));
    }
    assert(all.len() == gone.len() + rest.len());
    let (a, b, c) = (was.table, mid.table, now.table);
    assert(c.retired == (a.retired + all.len()) % 0x1_0000_0000_0000_0000);
    assert(c.live =~= a.live.difference(all));
    assert forall|idx: i32| #[trigger] all.contains(idx) <==> exists|k: int|
        a.retirements.len() <= k < c.retirements.len() && (#[trigger] c.retirements[k]).slot
            == idx by {
        assert(b.retirements =~= c.retirements.subrange(0, b.retirements.len() as int));
        if gone.contains(idx) {
            let k = choose|k: int|
                a.retirements.len() <= k < b.retirements.len() && (
                #[trigger] b.retirements[k]).slot == idx;
            assert(c.retirements[k] == b.retirements[k]);
        }
        if rest.contains(idx) {
            let k = choose|k: int|
                b.retirements.len() <= k < c.retirements.len() && (
                #[trigger] c.retirements[k]).slot == idx;
            assert(c.retirements[k].slot == idx);
        }
        if exists|k: int|
            a.retirements.len() <= k < c.retirements.len() && (#[trigger] c.retirements[k]).slot
                == idx {
            let k = choose|k: int|
                a.retirements.len() <= k < c.retirements.len() && (
                #[trigger] c.retirements[k]).slot == idx;
            if k < b.retirements.len() {
                assert(b.retirements[k] == c.retirements[k]);
                assert(gone.contains(idx));
            } else {
                assert(rest.contains(idx));
            }
        }
    }
    assert forall|k: int| a.retirements.len() <= k < c.retirements.len() implies (
    #[trigger] c.retirements[k]).evicted == evicted by {
        if k < b.retirements.len() {
            assert(b.retirements[k] == c.retirements[k]);
        }
    }
    assert(a.retirements =~= c.retirements.subrange(0, a.retirements.len() as int)) by {
        assert forall|k: int| 0 <= k < a.retirements.len() implies a.retirements[k]
            == c.retirements[k] by {
            assert(b.retirements[k] == c.retirements.subrange(0, b.retirements.len() as int)[k]);
            assert(a.retirements[k] == b.retirements.subrange(0, a.retirements.len() as int)[k]);
        }
    }
}

proof fn lemma_clear_of_union(list: Seq<i32>, gone: Set<i32>, rest: Set<i32>)
    ensures
        clear_of(clear_of(list, gone), rest) == clear_of(list, gone.union(rest)),
    decreases list.len(),
{
    if list.len() > 0 {
        lemma_clear_of_union(list.drop_last(), gone, rest);
        let front = clear_of(list.drop_last(), gone);
        if !gone.contains(list.last()) {
            assert(front.push(list.last()).drop_last() =~= front);
        }
    }
}

/// The list of a module's slots is as long as the module has slots.
proof fn lemma_slot_count(code: CodeCache, owner: JitOwnerId)
    requires
        code.wf(),
    ensures
        code@.slots_of(owner).finite(),
        code@.slots_of(owner).len() == if code.owner_slots.lists().contains_key(owner) {
            code.owner_slots.lists()[owner].len()
        } else {
            0
        },
{
    let slots = code@.slots_of(owner);
    if code.owner_slots.lists().contains_key(owner) {
        let list = code.owner_slots.lists()[owner];
        assert forall|idx: i32| slots.contains(idx) <==> list.contains(idx) by {
            assert(code.owner_slots.has(owner, idx) <==> code@.slot_owner.contains_key(idx)
                && code@.slot_owner[idx] == owner);
        }
        assert(slots =~= list.to_set());
        list.unique_seq_to_set();
    } else {
        assert forall|idx: i32| !slots.contains(idx) by {
            assert(code.owner_slots.has(owner, idx) <==> code@.slot_owner.contains_key(idx)
                && code@.slot_owner[idx] == owner);
        }
        assert(slots =~= Set::empty());
    }
}

impl CodeCache {
    /// Release the slots of a module that nothing calls.
    pub fn retire_unreferenced_slots(&mut self, owner: JitOwnerId)
        requires
            old(self).wf(),
        ensures
            final(self).wf(),
            final(self)@.cache == old(self)@.cache,
            old(self)@.stripped(
                final(self)@,
                Set::new(
                    |idx: i32|
                        old(self)@.slots_of(owner).contains(idx) && old(self)@.uses(idx)
                            =~= Set::empty(),
                ),
                owner,
                false,
            ),
    {
        self.release_unused(owner, false);
    }

    fn release_unused(&mut self, owner: JitOwnerId, evicted: bool)
        requires
            old(self).wf(),
        ensures
            final(self).wf(),
            final(self)@.cache == old(self)@.cache,
            old(self)@.stripped(
                final(self)@,
                Set::new(
                    |idx: i32|
                        old(self)@.slots_of(owner).contains(idx) && old(self)@.uses(idx)
                            =~= Set::empty(),
                ),
                owner,
                evicted,
            ),
    {
        let ghost was = self@;
        let slots: Vec<i32> = self.owner_slots.list_of(owner);
        let ghost mut gone: Set<i32> = Set::empty();
        let mut i: usize = 0;
        proof {
            lemma_clear_of_none(was.ext_queue);
            assert(was.slot_owner.remove_keys(gone) =~= was.slot_owner);
            assert(was.regions.remove_keys(gone) =~= was.regions);
            assert(was.exits.remove_keys(gone) =~= was.exits);
            assert(was.table.live.difference(gone) =~= was.table.live);
            assert forall|idx: i32| slots@.contains(idx) <==> was.slots_of(owner).contains(idx) by {
                assert(self.owner_slots.has(owner, idx) <==> was.slot_owner.contains_key(idx)
                    && was.slot_owner[idx] == owner);
            }
        }
        while i < slots.len()
            invariant
                i <= slots@.len(),
                self.wf(),
                was.wf(),
                self@.cache == was.cache,
                was.cache.dom().finite(),
                was.stripped(self@, gone, owner, evicted),
                gone.finite(),
                forall|idx: i32| #[trigger]
                    slots@.contains(idx) <==> was.slots_of(owner).contains(idx),
                forall|idx: i32| #[trigger]
                    gone.contains(idx) <==> slots@.subrange(0, i as int).contains(idx) && uses_in(
                        was.cache,
                        idx,
                    ) =~= Set::empty(),
            decreases slots@.len() - i,
        {
            let idx: i32 = slots[i];
            let ghost before = slots@.subrange(0, i as int);
            let ghost after = slots@.subrange(0, i + 1);
            proof {
                assert(after =~= before.push(idx));
                assert(slots@.contains(idx));
                assert(was.slots_of(owner).contains(idx));
                lemma_no_uses(was.cache, idx);
                assert(count_of(self.slot_refs@, idx) == uses_in(was.cache, idx).len());
                assert forall|k: i32| #[trigger] after.contains(k) <==> before.contains(k) || k
                    == idx by {
                    if before.contains(k) {
                        let j = choose|j: int| 0 <= j < before.len() && before[j] == k;
                        assert(after[j] == k);
                    }
                    assert(after[i as int] == idx);
                    if after.contains(k) && k != idx {
                        let j = choose|j: int| 0 <= j < after.len() && after[j] == k;
                        assert(before[j] == k);
                    }
                }
            }
            if !self.slot_refs.contains_key(&idx) {
                proof {
                    if self@.slot_owner.contains_key(idx) {
                        lemma_strip(was, self@, gone, owner, evicted, idx);
                        gone = gone.insert(idx);
                    } else {
                        assert(gone.contains(idx));
                    }
                }
                self.retire_owned_slot(idx, evicted);
            }
            i = i + 1;
        }
        proof {
            assert(slots@.subrange(0, i as int) =~= slots@);
            let all = Set::new(
                |idx: i32|
                    was.slots_of(owner).contains(idx) && was.uses(idx) =~= Set::empty(),
            );
            assert(gone =~= all);
        }
    }

    /// Retire one complete generated module and every cache entry which points
    /// into it. Page routers require this atomic unit: removing one PC would
    /// leave other entries able to call private code from the old page image.
    /// Returns how many slots the module had.
    pub fn retire_owner(&mut self, owner: JitOwnerId, evicted: bool) -> (slots: usize)
        requires
            old(self).wf(),
        ensures
            final(self).wf(),
            old(self)@.without_module(final(self)@, owner, evicted),
            slots == old(self)@.slots_of(owner).len(),
    {
        let ghost was = self@;
        let slots: usize = match self.owner_slots.get(&owner) {
            Some(list) => list.len(),
            None => 0,
        };
        proof {
            lemma_slot_count(*self, owner);
        }
        let pcs: Vec<u64> = self.owner_entries.list_of(owner);
        let ghost mut gone: Set<i32> = Set::empty();
        let mut i: usize = 0;
        proof {
            lemma_clear_of_none(was.ext_queue);
            assert(was.slot_owner.remove_keys(gone) =~= was.slot_owner);
            assert(was.regions.remove_keys(gone) =~= was.regions);
            assert(was.exits.remove_keys(gone) =~= was.exits);
            assert(was.table.live.difference(gone) =~= was.table.live);
            assert(was.cache =~= was.cache.remove_keys(pcs@.subrange(0, 0).to_set()));
            assert forall|pc: u64| pcs@.contains(pc) <==> was.entries_of(owner).contains(pc) by {
                assert(self.owner_entries.has(owner, pc) <==> was.owner_at(pc) == Some(owner));
            }
        }
        while i < pcs.len()
            invariant
                i <= pcs@.len(),
                self.wf(),
                was.wf(),
                pcs@.no_duplicates(),
                self@.cache == was.cache.remove_keys(pcs@.subrange(0, i as int).to_set()),
                was.stripped(self@, gone, owner, evicted),
                gone.finite(),
                gone.subset_of(was.slots_of(owner)),
                forall|pc: u64| #[trigger]
                    pcs@.contains(pc) <==> was.entries_of(owner).contains(pc),
            decreases pcs@.len() - i,
        {
            let pc: u64 = pcs[i];
            let ghost before = pcs@.subrange(0, i as int);
            let ghost now = self@;
            proof {
                assert(pcs@.contains(pc));
                assert(was.entries_of(owner).contains(pc));
                assert(!before.contains(pc));
                assert(now.slot_at(pc) == was.slot_at(pc));
                let idx = now.slot_at(pc)->0;
                assert(now.slot_owner.contains_key(idx));
                assert(now.slot_owner[idx] == owner);
            }
            self.cache_remove(pc, evicted);
            proof {
                let idx = now.slot_at(pc)->0;
                let mid = CodeView { cache: now.cache.remove(pc), ..now };
                assert(was.stripped(mid, gone, owner, evicted));
                assert(pcs@.subrange(0, i + 1) =~= before.push(pc));
                assert(mid.cache =~= was.cache.remove_keys(pcs@.subrange(0, i + 1).to_set())) by {
                    let after = pcs@.subrange(0, i + 1);
                    assert forall|x: u64| #[trigger] after.to_set().contains(x)
                        <==> before.to_set().contains(x) || x == pc by {
                        if before.contains(x) {
                            let j = choose|j: int| 0 <= j < before.len() && before[j] == x;
                            assert(after[j] == x);
                        }
                        assert(after[i as int] == pc);
                        if after.contains(x) && x != pc {
                            let j = choose|j: int| 0 <= j < after.len() && after[j] == x;
                            assert(before[j] == x);
                        }
                    }
                }
                if mid.uses(idx) =~= Set::empty() {
                    lemma_strip(was, mid, gone, owner, evicted, idx);
                    gone = gone.insert(idx);
                }
            }
            i = i + 1;
        }
        let ghost between = self@;
        proof {
            assert(pcs@.subrange(0, i as int) =~= pcs@);
            assert(pcs@.to_set() =~= was.entries_of(owner));
            assert(between.cache == was.cache.remove_keys(was.entries_of(owner)));
            assert forall|idx: i32| between.slots_of(owner).contains(idx) implies between.uses(idx)
                =~= Set::empty() by {
                assert forall|pc: u64| #[trigger] slot_in(between.cache, pc) != Some(idx) by {
                    if slot_in(between.cache, pc) == Some(idx) {
                        assert(was.slot_at(pc) == Some(idx));
                        assert(was.entries_of(owner).contains(pc));
                    }
                }
                lemma_no_uses(between.cache, idx);
            }
        }
        // A batch export can be unreferenced because a newer landing won the
        // cache race. It still belongs to this owner and must be released.
        self.release_unused(owner, evicted);
        proof {
            let rest = Set::new(
                |idx: i32|
                    between.slots_of(owner).contains(idx) && between.uses(idx) =~= Set::empty(),
            );
            assert(rest =~= between.slots_of(owner));
            assert(rest.subset_of(was.slots_of(owner)));
            vstd::set_lib::lemma_set_subset_finite(was.slots_of(owner), rest);
            lemma_strip_all(was, between, self@, gone, rest, owner, evicted);
        }
        if slots == 0 {
            self.forget_owner(owner);
        }
        slots
    }
}

// ---- uses ----------------------------------------------------------------

impl CodeView {
    /// The state after the entry at `pc` was used once more.
    pub open spec fn used(self, pc: u64) -> CodeView {
        let stamp = bumped(self.stamp);
        CodeView {
            cache: if self.cache.contains_key(pc) {
                match self.cache[pc] {
                    Some(block) => self.cache.insert(
                        pc,
                        Some(JitBlock { last_used: stamp, ..block }),
                    ),
                    None => self.cache,
                }
            } else {
                self.cache
            },
            recency: match self.owner_at(pc) {
                Some(owner) => touched(self.recency, owner, stamp),
                None => self.recency,
            },
            stamp,
            ..self
        }
    }

    /// Whether the entry at `pc` calls the module that runs for its page in this
    /// address space.
    pub open spec fn page_module_owns(self, aspace: u64, pc: u64) -> bool {
        let key = (aspace, page_base(pc));
        &&& self.modules.contains_key(key)
        &&& self.modules[key].active_owner() is Some
        &&& self.owner_at(pc) == self.modules[key].active_owner()
    }

    /// The state after the entries among the first `n` were dropped in turn.
    pub open spec fn dropped_all(self, pcs: Seq<u64>, n: int, evicted: bool) -> CodeView
        decreases n,
    {
        if n <= 0 {
            self
        } else {
            self.dropped_all(pcs, n - 1, evicted).dropped(pcs[n - 1], evicted)
        }
    }

    /// The decision about the module of a page, given the code it would be
    /// compiled from.
    pub open spec fn module_decision(self, key: PageKey, source: PageModuleSource) -> Decision {
        if !self.modules.contains_key(key) {
            Decision::Build(None)
        } else {
            match self.modules[key] {
                ModuleView::Attempted(attempted) => if attempted == source {
                    Decision::Individual
                } else {
                    Decision::Build(None)
                },
                ModuleView::Pending { .. } => Decision::Awaiting,
                ModuleView::Live(live) => if live.source != source {
                    Decision::Build(Some(live))
                } else {
                    Decision::Individual
                },
            }
        }
    }

    /// The state after the module of a page could not be compiled: the module
    /// that was there runs on, or the source is noted so that it is not tried
    /// again.
    pub open spec fn module_failed(
        self,
        key: PageKey,
        source: PageModuleSource,
        prior: Option<LiveView>,
    ) -> CodeView {
        CodeView {
            modules: self.modules.insert(
                key,
                match prior {
                    Some(live) => ModuleView::Live(live),
                    None => ModuleView::Attempted(source),
                },
            ),
            ..self
        }
    }

    /// The state after the compilation of a page module was given up: the module
    /// that was there runs on, or the page is as if nothing had been tried.
    pub open spec fn module_cancelled(self, key: PageKey, prior: Option<LiveView>) -> CodeView {
        CodeView {
            modules: match prior {
                Some(live) => self.modules.insert(key, ModuleView::Live(live)),
                None => self.modules.remove(key),
            },
            ..self
        }
    }

    /// The state after a page module came.
    pub open spec fn module_landed(
        self,
        key: PageKey,
        source: PageModuleSource,
        owner: JitOwnerId,
        entries: Seq<u64>,
    ) -> CodeView {
        CodeView {
            modules: self.modules.insert(
                key,
                ModuleView::Live(LiveView { source, owner, entries }),
            ),
            module_key: self.module_key.insert(owner, key),
            ..self
        }
    }

    /// Whether a page module is being compiled under this ticket.
    pub open spec fn module_pending(self, ticket: u64, page_module: Option<PageKey>) -> bool {
        match page_module {
            None => false,
            Some(key) => self.modules.contains_key(key) && (self.modules[key] matches
                ModuleView::Pending { ticket: current, .. } && current == ticket),
        }
    }
}

/// A [`PageModuleDecision`].
pub enum Decision {
    Individual,
    Awaiting,
    Build(Option<LiveView>),
}

impl View for PageModuleDecision {
    type V = Decision;

    open spec fn view(&self) -> Decision {
        match *self {
            PageModuleDecision::Individual => Decision::Individual,
            PageModuleDecision::Awaiting => Decision::Awaiting,
            PageModuleDecision::Build(prior) => Decision::Build(prior_view(prior)),
        }
    }
}

/// The entry points of a batch.
pub open spec fn member_pcs(batch: PendingBatch) -> Seq<u64> {
    Seq::new(batch.members@.len(), |i: int| batch.members@[i].pc)
}

impl CodeCache {
    /// Note a use of the entry at `pc`.
    pub fn touch(&mut self, pc: u64)
        requires
            old(self).wf(),
        ensures
            final(self).wf(),
            final(self)@ == old(self)@.used(pc),
    {
        let ghost was = self@;
        let stamp: u64 = self.next_use_stamp();
        let block: JitBlock = match self.entry(pc) {
            Some(Some(block)) => block,
            _ => {
                assert(self@ =~= was.used(pc));
                return;
            },
        };
        self.cache.insert(pc, Some(JitBlock { last_used: stamp, ..block }));
        proof {
            let now = self@.cache;
            assert forall|x: u64| #[trigger] slot_in(now, x) == slot_in(was.cache, x) by {
            }
            assert forall|idx: i32| #[trigger]
                count_of(self.slot_refs@, idx) == uses_in(now, idx).len() by {
                assert(uses_in(now, idx) =~= uses_in(was.cache, idx));
            }
            assert forall|page: u64, x: u64| #[trigger]
                self.page_blocks.has(page, x) <==> backs_in(now, was.regions, page, x) by {
                assert(backs_in(now, was.regions, page, x) == backs_in(
                    was.cache,
                    was.regions,
                    page,
                    x,
                ));
            }
            if slot_of(Some(block)) is None {
                assert(!was.slot_owner.contains_key(block.idx));
            }
        }
        match self.owner_for_slot(block.idx) {
            Some(owner) => {
                assert(owns_in(self@.slot_owner, owner)) by {
                    assert(self@.slot_owner.contains_key(block.idx));
                }
                self.update_owner_recency(owner, stamp);
            },
            None => {},
        }
        assert(self@ =~= was.used(pc));
    }

    /// Whether a slot belongs to a page module.
    pub fn is_page_module_slot(&self, index: i32) -> (r: bool)
        ensures
            r == (self@.slot_owner.contains_key(index) && self@.module_key.contains_key(
                self@.slot_owner[index],
            )),
    {
        match self.slot_owner.get(&index) {
            Some(owner) => self.page_module_owner.contains_key(owner),
            None => false,
        }
    }

    /// Whether the entry at `pc` calls the module that runs for its page in this
    /// address space.
    pub fn page_module_owns_cached_entry(&self, aspace: u64, pc: u64) -> (r: bool)
        ensures
            r == self@.page_module_owns(aspace, pc),
    {
        let key: PageKey = (aspace, page_of(pc));
        let owner: JitOwnerId = match self.page_modules.get(&key) {
            Some(state) => match state.active_owner() {
                Some(owner) => owner,
                None => {
                    return false;
                },
            },
            None => {
                return false;
            },
        };
        match self.entry(pc) {
            Some(Some(block)) => block.idx >= 0 && (match self.owner_for_slot(block.idx) {
                Some(current) => current == owner,
                None => false,
            }),
            _ => false,
        }
    }

    /// Drop every entry whose code lies on a RAM page.
    pub fn drop_page(&mut self, page: u64) -> (pcs: Vec<u64>)
        requires
            old(self).wf(),
        ensures
            final(self).wf(),
            final(self)@ == old(self)@.dropped_all(pcs@, pcs@.len() as int, false),
            final(self)@.cache == old(self)@.cache.remove_keys(pcs@.to_set()),
            pcs@.no_duplicates(),
            forall|pc: u64| #[trigger]
                pcs@.contains(pc) <==> backs_in(old(self)@.cache, old(self)@.regions, page, pc),
    {
        let ghost was = self@;
        let pcs: Vec<u64> = self.page_blocks.list_of(page);
        proof {
            assert forall|pc: u64| #[trigger]
                pcs@.contains(pc) <==> backs_in(was.cache, was.regions, page, pc) by {
                assert(self.page_blocks.has(page, pc) <==> backs_in(
                    was.cache,
                    was.regions,
                    page,
                    pc,
                ));
            }
            assert(was.cache =~= was.cache.remove_keys(pcs@.subrange(0, 0).to_set()));
        }
        let mut i: usize = 0;
        while i < pcs.len()
            invariant
                i <= pcs@.len(),
                self.wf(),
                self@ == was.dropped_all(pcs@, i as int, false),
                self@.cache == was.cache.remove_keys(pcs@.subrange(0, i as int).to_set()),
            decreases pcs@.len() - i,
        {
            let pc: u64 = pcs[i];
            let ghost before = pcs@.subrange(0, i as int);
            let ghost now = self@;
            self.cache_remove(pc, false);
            proof {
                let after = pcs@.subrange(0, i + 1);
                assert(after =~= before.push(pc));
                assert forall|x: u64| #[trigger] after.to_set().contains(x)
                    <==> before.to_set().contains(x) || x == pc by {
                    if before.contains(x) {
                        let j = choose|j: int| 0 <= j < before.len() && before[j] == x;
                        assert(after[j] == x);
                    }
                    assert(after[i as int] == pc);
                    if after.contains(x) && x != pc {
                        let j = choose|j: int| 0 <= j < after.len() && after[j] == x;
                        assert(before[j] == x);
                    }
                }
                assert(self@.cache =~= now.cache.remove(pc));
                assert(self@.cache =~= was.cache.remove_keys(after.to_set()));
            }
            i = i + 1;
        }
        assert(pcs@.subrange(0, i as int) =~= pcs@);
        pcs
    }

    // ---- page modules ----

    /// What to do about the module of a page, given the code it would be
    /// compiled from.
    pub fn page_module_decision(&self, key: PageKey, source: PageModuleSource) -> (d:
        PageModuleDecision)
        ensures
            d@ == self@.module_decision(key, source),
    {
        match self.page_modules.get(&key) {
            None => PageModuleDecision::Build(None),
            Some(PageModuleState::Attempted(attempted)) => if *attempted == source {
                PageModuleDecision::Individual
            } else {
                PageModuleDecision::Build(None)
            },
            Some(PageModuleState::Pending { .. }) => PageModuleDecision::Awaiting,
            Some(PageModuleState::Live(live)) => if live.source != source {
                PageModuleDecision::Build(Some(live.copy()))
            } else {
                PageModuleDecision::Individual
            },
        }
    }

    /// Note the state of a page's module.
    pub fn set_page_module(&mut self, key: PageKey, state: PageModuleState)
        ensures
            old(self).wf() ==> final(self).wf(),
            final(self)@ == (CodeView {
                modules: old(self)@.modules.insert(key, state@),
                ..old(self)@
            }),
    {
        let ghost was = self@;
        self.page_modules.insert(key, state);
        assert(self@.modules =~= was.modules.insert(key, state@));
    }

    /// Note that the module of a page could not be compiled.
    pub fn record_page_module_failure(
        &mut self,
        key: PageKey,
        source: PageModuleSource,
        prior: Option<LivePageModule>,
    )
        ensures
            old(self).wf() ==> final(self).wf(),
            final(self)@ == old(self)@.module_failed(key, source, prior_view(prior)),
    {
        match prior {
            Some(live) => self.set_page_module(key, PageModuleState::Live(live)),
            None => self.set_page_module(key, PageModuleState::Attempted(source)),
        }
    }

    /// Whether a batch is still wanted: one for a page only while the page waits
    /// for this very ticket.
    pub fn page_module_pending_is_current(&self, ticket: u64, batch: &PendingBatch) -> (r: bool)
        ensures
            r == (batch.page_module is None || self@.module_pending(ticket, batch.page_module)),
    {
        match batch.page_module {
            None => true,
            Some(key) => match self.page_modules.get(&key) {
                Some(PageModuleState::Pending { ticket: current, .. }) => *current == ticket,
                _ => false,
            },
        }
    }

    /// End the compilation of a page module. A batch that no page waits for
    /// under this ticket changes nothing. Returns the module that a landed one
    /// replaces.
    pub fn finish_pending_page_module(
        &mut self,
        ticket: u64,
        batch: &PendingBatch,
        finish: PageModuleFinish,
    ) -> (replaced: Option<JitOwnerId>)
        ensures
            old(self).wf() ==> final(self).wf(),
            if !old(self)@.module_pending(ticket, batch.page_module) {
                final(self)@ == old(self)@ && replaced is None
            } else {
                let key = batch.page_module->0;
                let state = old(self)@.modules[key];
                let (source, prior) = (state->Pending_source, state->Pending_prior);
                match finish {
                    PageModuleFinish::Failed => replaced is None && final(self)@ == old(
                        self,
                    )@.module_failed(key, source, prior),
                    PageModuleFinish::Cancelled => replaced is None && final(self)@ == old(
                        self,
                    )@.module_cancelled(key, prior),
                    PageModuleFinish::Landed(owner) => {
                        &&& replaced == match prior {
                            Some(live) => Some(live.owner),
                            None => None,
                        }
                        &&& final(self)@.modules.contains_key(key) && (
                        final(self)@.modules[key] matches ModuleView::Live(live)
                            && is_sorted_set_of(live.entries, member_pcs(*batch)) && final(self)@
                            == old(self)@.module_landed(key, source, owner, live.entries))
                    },
                }
            },
    {
        let ghost was = self@;
        let key: PageKey = match batch.page_module {
            None => {
                return None;
            },
            Some(key) => key,
        };
        if !self.page_module_pending_is_current(ticket, batch) {
            return None;
        }
        let ghost states = self.page_modules@;
        let (source, prior): (PageModuleSource, Option<LivePageModule>) =
            match self.page_modules.remove(&key) {
            Some(PageModuleState::Pending { source, ticket: _, prior }) => (source, prior),
            _ => {
                return None;
            },
        };
        match finish {
            PageModuleFinish::Failed => {
                self.record_page_module_failure(key, source, prior);
                assert(self@.modules =~= was.module_failed(key, source, prior_view(prior)).modules);
                None
            },
            PageModuleFinish::Cancelled => {
                match prior {
                    Some(live) => {
                        self.set_page_module(key, PageModuleState::Live(live));
                    },
                    None => {},
                }
                assert(self@.modules =~= was.module_cancelled(key, prior_view(prior)).modules);
                None
            },
            PageModuleFinish::Landed(owner) => {
                let mut pcs: Vec<u64> = Vec::new();
                let mut i: usize = 0;
                while i < batch.members.len()
                    invariant
                        i <= batch.members@.len(),
                        pcs@ == member_pcs(*batch).subrange(0, i as int),
                    decreases batch.members@.len() - i,
                {
                    pcs.push(batch.members[i].pc);
                    i = i + 1;
                    assert(pcs@ =~= member_pcs(*batch).subrange(0, i as int));
                }
                assert(pcs@ =~= member_pcs(*batch));
                let entries: Vec<u64> = sorted_set(pcs.as_slice());
                let ghost list = entries@;
                self.page_modules.insert(
                    key,
                    PageModuleState::Live(LivePageModule { source, owner, entries }),
                );
                self.page_module_owner.insert(owner, key);
                assert(self@.modules =~= was.module_landed(key, source, owner, list).modules);
                assert(self@ =~= was.module_landed(key, source, owner, list));
                match prior {
                    Some(live) => Some(live.owner),
                    None => None,
                }
            },
        }
    }
}

impl CodeCache {
    /// Release every slot and drop everything.
    pub fn clear(&mut self)
        requires
            old(self).wf(),
        ensures
            final(self).wf(),
            table_released(
                old(self)@.table,
                final(self)@.table,
                old(self)@.slot_owner.dom(),
                false,
            ),
            final(self)@ == (CodeView {
                table: final(self)@.table,
                stamp: old(self)@.stamp,
                ..CodeView::fresh()
            }),
    {
        let ghost was = self@;
        let mut slots: Vec<i32> = Vec::new();
        for idx in it: self.slot_owner.keys()
            invariant
                slots@.len() == it.index(),
                forall|i: int| 0 <= i < slots@.len() ==> #[trigger] slots@[i] == *it.seq()[i],
                it.seq() == vstd::std_specs::hash::spec_keys_iter(&self.slot_owner).remaining(),
        {
            slots.push(*idx);
        }
        proof {
            let keys = vstd::std_specs::hash::spec_keys_iter(&self.slot_owner).remaining();
            vstd::std_specs::hash::axiom_spec_keys_iter(&self.slot_owner);
            let plain = keys.unref();
            assert(slots@ =~= plain);
            assert(slots@.to_set() == was.slot_owner.dom());
            assert(slots@.no_duplicates()) by {
                assert forall|i: int, j: int|
                    0 <= i < slots@.len() && 0 <= j < slots@.len() && i != j implies slots@[i]
                    != slots@[j] by {
                    assert(keys[i] != keys[j]);
                }
            }
        }
        let ghost mut gone: Set<i32> = Set::empty();
        let mut i: usize = 0;
        assert(was.table.live.difference(gone) =~= was.table.live);
        while i < slots.len()
            invariant
                i <= slots@.len(),
                slots@.no_duplicates(),
                slots@.to_set() == was.slot_owner.dom(),
                slots_live(was.slot_owner, was.table.live),
                gone.finite(),
                gone =~= slots@.subrange(0, i as int).to_set(),
                table_released(was.table, self.table@, gone, false),
                self.use_stamp == was.stamp,
            decreases slots@.len() - i,
        {
            let idx: i32 = slots[i];
            let ghost before = slots@.subrange(0, i as int);
            proof {
                assert(slots@.to_set().contains(idx));
                assert(was.slot_owner.contains_key(idx));
                assert(!before.contains(idx));
                lemma_table_release(was.table, self.table@, gone, false, idx);
                let after = slots@.subrange(0, i + 1);
                assert(after =~= before.push(idx));
                assert forall|k: i32| #[trigger] after.to_set().contains(k)
                    <==> before.to_set().contains(k) || k == idx by {
                    if before.contains(k) {
                        let j = choose|j: int| 0 <= j < before.len() && before[j] == k;
                        assert(after[j] == k);
                    }
                    assert(after[i as int] == idx);
                    if after.contains(k) && k != idx {
                        let j = choose|j: int| 0 <= j < after.len() && after[j] == k;
                        assert(before[j] == k);
                    }
                }
                gone = gone.insert(idx);
            }
            self.table.retire(idx, false);
            i = i + 1;
        }
        assert(slots@.subrange(0, i as int) =~= slots@);
        self.cache.clear();
        self.slot_refs.clear();
        self.owner_slots.clear();
        self.slot_owner.clear();
        self.owner_entries.clear();
        self.owner_recency.clear();
        self.page_blocks.clear();
        self.regions.clear();
        self.region_exits.clear();
        self.ext_queue.clear();
        self.page_module_owner.clear();
        self.page_modules.clear();
        proof {
            assert(self@.regions =~= Map::empty());
            assert(self@.exits =~= Map::empty());
            assert(self@.ext_queue =~= Seq::empty());
            assert(self@.modules =~= Map::empty());
            assert forall|idx: i32| #[trigger]
                count_of(self.slot_refs@, idx) == uses_in(self@.cache, idx).len() by {
                assert(uses_in(self@.cache, idx) =~= Set::empty());
            }
        }
    }
}

// ---- laws ----------------------------------------------------------------

/// A module that could not be compiled is not tried again from the same code,
/// and is tried again from any other.
pub proof fn law_failed_module_reopens_for_new_code(
    v: CodeView,
    key: PageKey,
    source: PageModuleSource,
    other: PageModuleSource,
)
    ensures
        v.module_failed(key, source, None).module_decision(key, other) == if other == source {
            Decision::Individual
        } else {
            Decision::Build(None)
        },
{
}

/// A compilation that was given up can be tried again from the same code, and
/// one that failed or was given up leaves the module that ran in its place.
pub proof fn law_unfinished_module_keeps_the_prior(
    v: CodeView,
    key: PageKey,
    source: PageModuleSource,
    live: LiveView,
)
    ensures
        v.module_cancelled(key, None).module_decision(key, source) == Decision::Build(None),
        v.module_cancelled(key, Some(live)).modules[key] == ModuleView::Live(live),
        v.module_failed(key, source, Some(live)).modules[key] == ModuleView::Live(live),
{
}

/// A retired module leaves nothing behind: no entry runs in it, no slot belongs
/// to it, it has no last use and no page. Entries of other modules stay, and so
/// do their slots.
pub proof fn law_retired_module_leaves_nothing(
    was: CodeView,
    now: CodeView,
    owner: JitOwnerId,
    evicted: bool,
    other: JitOwnerId,
    pc: u64,
)
    requires
        was.wf(),
        was.without_module(now, owner, evicted),
        other != owner,
    ensures
        now.entries_of(owner) =~= Set::empty(),
        now.slots_of(owner) =~= Set::empty(),
        !now.recency.contains_key(owner),
        !now.module_key.contains_key(owner),
        now.slots_of(other) =~= was.slots_of(other),
        was.owner_at(pc) == Some(other) ==> now.cache.contains_key(pc) && now.cache[pc]
            == was.cache[pc] && now.owner_at(pc) == Some(other),
{
}

/// Releasing the last call of a slot releases the slot, and only then.
pub proof fn law_slot_lives_while_called(v: CodeView, pc: u64, idx: i32)
    requires
        v.wf(),
        v.slot_at(pc) == Some(idx),
    ensures
        v.dropped(pc, false).slot_owner.contains_key(idx) <==> exists|other: u64|
            other != pc && #[trigger] v.slot_at(other) == Some(idx),
{
    let mid = CodeView { cache: v.cache.remove(pc), ..v };
    assert(v.slot_owner.contains_key(idx));
    if exists|other: u64| other != pc && #[trigger] v.slot_at(other) == Some(idx) {
        let other = choose|other: u64| other != pc && #[trigger] v.slot_at(other) == Some(idx);
        assert(mid.uses(idx).contains(other));
        assert(!(mid.uses(idx) =~= Set::empty()));
    } else {
        assert forall|x: u64| !mid.uses(idx).contains(x) by {
            if mid.uses(idx).contains(x) {
                assert(v.slot_at(x) == Some(idx));
            }
        }
        assert(mid.uses(idx) =~= Set::empty());
    }
}

} // verus!
