//! Discovery of hot code by page, and the pages that builds have claimed.

use vstd::prelude::*;
use std::collections::HashSet;
use crate::jit::block::{copied, page_base, page_of, PagePair};
use crate::jit::code::ram_page;
use crate::jit::index::{ascending, drops, insert_sorted, with_item, PageKey, PageMap};
use crate::ram::RAM_BASE;

verus! {

/// Distinct (address space, page) discovery records kept before the whole
/// table is dropped — address spaces die and their pages go with them.
pub const SB_SPACE_CAP: usize = 16384;

/// Deferred superblock requests kept before new ones are dropped.
pub const SB_QUEUE_CAP: usize = 64;

/// A page that a build in flight has claimed.
#[derive(Clone, Copy, Debug, PartialEq, Eq, Structural)]
pub struct PendingSuperblockClaim {
    pub ticket: u64,
    /// Whether the page was claimed before this chain of builds began.
    pub prior: bool,
    pub physical_page: u64,
}

/// What is known of the superblock builds of a page.
#[derive(Clone, Copy, Debug, PartialEq, Eq, Structural)]
pub struct BuildRecord {
    /// Hot entries at the last build.
    pub entries: usize,
    /// Builds that covered no new hot pcs.
    pub compiles: u32,
    /// Instructions retired when the last build was issued.
    pub when: u64,
}

/// Pages that are, or will be, covered by a page function.
#[verifier::ext_equal]
pub struct ClaimsView {
    pub superblocked: Set<PageKey>,
    pub pending: Map<PageKey, PendingSuperblockClaim>,
}

impl ClaimsView {
    /// Whether the page was covered before the builds in flight.
    pub open spec fn prior(self, key: PageKey) -> bool {
        if self.pending.contains_key(key) {
            self.pending[key].prior
        } else {
            self.superblocked.contains(key)
        }
    }

    /// The claims after a build over one page was issued.
    pub open spec fn claimed_page(self, ticket: u64, aspace: u64, page: PagePair) -> ClaimsView {
        let key = (aspace, page.0);
        ClaimsView {
            superblocked: self.superblocked.insert(key),
            pending: self.pending.insert(
                key,
                PendingSuperblockClaim {
                    ticket,
                    prior: self.prior(key),
                    physical_page: ram_page(page.1),
                },
            ),
        }
    }

    /// The claims after a build over the first `n` pages was issued.
    pub open spec fn claimed(
        self,
        ticket: u64,
        aspace: u64,
        pages: Seq<PagePair>,
        n: int,
    ) -> ClaimsView
        decreases n,
    {
        if n <= 0 {
            self
        } else {
            self.claimed(ticket, aspace, pages, n - 1).claimed_page(ticket, aspace, pages[n - 1])
        }
    }

    /// Whether every page still belongs to the build.
    pub open spec fn is_current(self, ticket: u64, aspace: u64, pages: Seq<PagePair>) -> bool {
        forall|k: int|
            0 <= k < pages.len() ==> self.pending.contains_key((aspace, (#[trigger] pages[k]).0))
                && self.pending[(aspace, pages[k].0)].ticket == ticket
    }

    /// The claims after a build ended, as far as one page is concerned. A page
    /// that belongs to another build is left alone.
    pub open spec fn finished_page(self, ticket: u64, key: PageKey, landed: bool) -> ClaimsView {
        if self.pending.contains_key(key) && self.pending[key].ticket == ticket {
            ClaimsView {
                superblocked: if !landed && !self.pending[key].prior {
                    self.superblocked.remove(key)
                } else {
                    self.superblocked
                },
                pending: self.pending.remove(key),
            }
        } else {
            self
        }
    }

    /// The claims after a build over the first `n` pages ended.
    pub open spec fn finished(
        self,
        ticket: u64,
        aspace: u64,
        pages: Seq<PagePair>,
        landed: bool,
        n: int,
    ) -> ClaimsView
        decreases n,
    {
        if n <= 0 {
            self
        } else {
            self.finished(ticket, aspace, pages, landed, n - 1).finished_page(
                ticket,
                (aspace, pages[n - 1].0),
                landed,
            )
        }
    }
}

/// Superblock discovery, by address space and page.
pub struct Discovery {
    /// The hot block-entry pcs discovered in each guest code page.
    pub page_entries: PageMap<Vec<u64>>,
    /// Actually hot entry PCs, kept separate from superblock reachability
    /// seeds. Page-packed modules use these roots.
    pub page_hot_entries: PageMap<Vec<u64>>,
    /// Pages already compiled as a superblock, or about to be.
    pub superblocked: PageMap<()>,
    /// Latest asynchronous build that owns each claim.
    pub pending_superblocks: PageMap<PendingSuperblockClaim>,
    pub sb_gen: PageMap<BuildRecord>,
    /// Pages that wanted a superblock while the compile budget was spent.
    /// Drained one per quantum boundary, oldest first.
    pub sb_queue: Vec<PageKey>,
    /// Hot pcs on a superblocked page that had to get their own block because
    /// the page function does not cover them.
    pub sb_missed: PageMap<u32>,
}

/// The state of a [`Discovery`].
#[verifier::ext_equal]
pub struct DiscoveryView {
    pub entries: Map<PageKey, Seq<u64>>,
    pub hot: Map<PageKey, Seq<u64>>,
    pub claims: ClaimsView,
    pub builds: Map<PageKey, BuildRecord>,
    pub queue: Seq<PageKey>,
    pub missed: Map<PageKey, u32>,
}

impl View for Discovery {
    type V = DiscoveryView;

    open spec fn view(&self) -> DiscoveryView {
        DiscoveryView {
            entries: self.page_entries@.map_values(|list: Vec<u64>| list@),
            hot: self.page_hot_entries@.map_values(|list: Vec<u64>| list@),
            claims: ClaimsView {
                superblocked: self.superblocked@.dom(),
                pending: self.pending_superblocks@,
            },
            builds: self.sb_gen@,
            queue: self.sb_queue@,
            missed: self.sb_missed@,
        }
    }
}

/// The list of a page, empty where there is none.
pub open spec fn list_at(lists: Map<PageKey, Seq<u64>>, key: PageKey) -> Seq<u64> {
    if lists.contains_key(key) {
        lists[key]
    } else {
        Seq::empty()
    }
}

/// Every list is in order.
pub open spec fn all_ascending(lists: Map<PageKey, Seq<u64>>) -> bool {
    forall|key: PageKey| #[trigger] lists.contains_key(key) ==> ascending(lists[key])
}

/// The lists with `pc` entered in the list of a page.
pub open spec fn entered(lists: Map<PageKey, Seq<u64>>, key: PageKey, pc: u64) -> Map<
    PageKey,
    Seq<u64>,
> {
    lists.insert(key, with_item(list_at(lists, key), pc))
}

impl DiscoveryView {
    /// Nothing was discovered.
    pub open spec fn fresh() -> DiscoveryView {
        DiscoveryView {
            entries: Map::empty(),
            hot: Map::empty(),
            claims: ClaimsView { superblocked: Set::empty(), pending: Map::empty() },
            builds: Map::empty(),
            queue: Seq::empty(),
            missed: Map::empty(),
        }
    }

    pub open spec fn wf(self) -> bool {
        all_ascending(self.entries) && all_ascending(self.hot)
    }

    /// What is known of the builds of a page.
    pub open spec fn build_of(self, key: PageKey) -> BuildRecord {
        if self.builds.contains_key(key) {
            self.builds[key]
        } else {
            BuildRecord { entries: 0, compiles: 0, when: 0 }
        }
    }

    /// How many hot pcs the page function misses.
    pub open spec fn missed_of(self, key: PageKey) -> u32 {
        if self.missed.contains_key(key) {
            self.missed[key]
        } else {
            0
        }
    }

    /// The state after the code of some pages changed. Hot entries of a page
    /// survive a change that is only known by virtual page where the page has a
    /// module of its own.
    pub open spec fn invalidated(
        self,
        exact: Map<PageKey, ()>,
        broad: Set<u64>,
        modules: Set<PageKey>,
    ) -> DiscoveryView {
        let gone = Set::new(|key: PageKey| drops(exact, broad, Set::empty(), key));
        DiscoveryView {
            entries: self.entries.remove_keys(gone),
            hot: self.hot.remove_keys(
                Set::new(|key: PageKey| drops(exact, broad, modules, key)),
            ),
            claims: ClaimsView {
                superblocked: self.claims.superblocked.difference(gone),
                pending: self.claims.pending.remove_keys(gone),
            },
            builds: self.builds.remove_keys(gone),
            ..self
        }
    }
}

fn enter_list(lists: &mut PageMap<Vec<u64>>, key: PageKey, pc: u64) -> (n: usize)
    requires
        all_ascending(old(lists)@.map_values(|list: Vec<u64>| list@)),
    ensures
        all_ascending(final(lists)@.map_values(|list: Vec<u64>| list@)),
        final(lists)@.map_values(|list: Vec<u64>| list@) == entered(
            old(lists)@.map_values(|list: Vec<u64>| list@),
            key,
            pc,
        ),
        n == with_item(
            list_at(old(lists)@.map_values(|list: Vec<u64>| list@), key),
            pc,
        ).len(),
{
    let ghost was = lists@.map_values(|list: Vec<u64>| list@);
    let mut list: Vec<u64> = match lists.remove(&key) {
        Some(list) => list,
        None => Vec::new(),
    };
    assert(list@ =~= list_at(was, key));
    assert(ascending(list@)) by {
        if was.contains_key(key) {
            assert(ascending(was[key]));
        }
    }
    insert_sorted(&mut list, pc);
    let n: usize = list.len();
    lists.insert(key, list);
    proof {
        let now = lists@.map_values(|list: Vec<u64>| list@);
        assert(now =~= was.insert(key, list@));
        assert forall|k: PageKey| #[trigger] now.contains_key(k) implies ascending(now[k]) by {
            if k != key {
                assert(was.contains_key(k));
            }
        }
    }
    n
}

impl Discovery {
    pub open spec fn wf(&self) -> bool {
        self@.wf()
    }

    pub fn new() -> (d: Discovery)
        ensures
            d.wf(),
            d@ == DiscoveryView::fresh(),
    {
        let d = Discovery {
            page_entries: PageMap::new(),
            page_hot_entries: PageMap::new(),
            superblocked: PageMap::new(),
            pending_superblocks: PageMap::new(),
            sb_gen: PageMap::new(),
            sb_queue: Vec::new(),
            sb_missed: PageMap::new(),
        };
        assert(d@.entries =~= Map::empty());
        assert(d@.hot =~= Map::empty());
        assert(d@.claims.superblocked =~= Set::empty());
        assert(d@.queue =~= Seq::empty());
        d
    }

    /// Drop everything.
    pub fn clear(&mut self)
        ensures
            final(self).wf(),
            final(self)@ == DiscoveryView::fresh(),
    {
        self.page_entries.clear();
        self.page_hot_entries.clear();
        self.superblocked.clear();
        self.pending_superblocks.clear();
        self.sb_gen.clear();
        self.sb_queue.clear();
        self.sb_missed.clear();
        assert(self@.entries =~= Map::empty());
        assert(self@.hot =~= Map::empty());
        assert(self@.claims.superblocked =~= Set::empty());
        assert(self@.queue =~= Seq::empty());
    }

    /// Note a hot entry of a page module.
    pub fn record_page_hot_entry(&mut self, aspace: u64, pc: u64)
        requires
            old(self).wf(),
        ensures
            final(self).wf(),
            final(self)@ == (DiscoveryView {
                hot: entered(old(self)@.hot, (aspace, page_base(pc)), pc),
                ..old(self)@
            }),
    {
        enter_list(&mut self.page_hot_entries, (aspace, page_of(pc)), pc);
    }

    /// Note a block entry of a page. Returns how many the page has.
    pub fn record_page_entry(&mut self, aspace: u64, pc: u64) -> (n: usize)
        requires
            old(self).wf(),
        ensures
            final(self).wf(),
            final(self)@ == (DiscoveryView {
                entries: entered(old(self)@.entries, (aspace, page_base(pc)), pc),
                ..old(self)@
            }),
            n == with_item(list_at(old(self)@.entries, (aspace, page_base(pc))), pc).len(),
    {
        enter_list(&mut self.page_entries, (aspace, page_of(pc)), pc)
    }

    /// A copy of the block entries of a page.
    pub fn entries_of(&self, key: &PageKey) -> (list: Vec<u64>)
        ensures
            list@ == list_at(self@.entries, *key),
    {
        match self.page_entries.get(key) {
            Some(list) => copied(list.as_slice()),
            None => {
                let list: Vec<u64> = Vec::new();
                assert(list@ =~= list_at(self@.entries, *key));
                list
            },
        }
    }

    /// A copy of the hot entries of a page.
    pub fn hot_entries_of(&self, key: &PageKey) -> (list: Vec<u64>)
        ensures
            list@ == list_at(self@.hot, *key),
    {
        match self.page_hot_entries.get(key) {
            Some(list) => copied(list.as_slice()),
            None => {
                let list: Vec<u64> = Vec::new();
                assert(list@ =~= list_at(self@.hot, *key));
                list
            },
        }
    }

    /// What is known of the builds of a page.
    pub fn build_of(&self, key: &PageKey) -> (record: BuildRecord)
        ensures
            record == self@.build_of(*key),
    {
        match self.sb_gen.get(key) {
            Some(record) => *record,
            None => BuildRecord { entries: 0, compiles: 0, when: 0 },
        }
    }

    /// How many hot pcs the page function misses.
    pub fn missed_of(&self, key: &PageKey) -> (n: u32)
        ensures
            n == self@.missed_of(*key),
    {
        match self.sb_missed.get(key) {
            Some(n) => *n,
            None => 0,
        }
    }

    /// Note that a hot pc had to get a block of its own.
    pub fn note_missed(&mut self, key: PageKey)
        ensures
            final(self)@ == (DiscoveryView {
                missed: old(self)@.missed.insert(
                    key,
                    if old(self)@.missed_of(key) == u32::MAX {
                        u32::MAX
                    } else {
                        (old(self)@.missed_of(key) + 1) as u32
                    },
                ),
                ..old(self)@
            }),
            old(self).wf() ==> final(self).wf(),
    {
        let n: u32 = self.missed_of(&key).saturating_add(1);
        self.sb_missed.insert(key, n);
    }

    /// Remember a page that is to be built later, unless it is remembered or
    /// there are too many.
    pub fn defer(&mut self, key: PageKey)
        ensures
            final(self)@ == (DiscoveryView {
                queue: if old(self)@.queue.len() < SB_QUEUE_CAP && !old(self)@.queue.contains(
                    key,
                ) {
                    old(self)@.queue.push(key)
                } else {
                    old(self)@.queue
                },
                ..old(self)@
            }),
            old(self).wf() ==> final(self).wf(),
    {
        if self.sb_queue.len() >= SB_QUEUE_CAP {
            return;
        }
        let mut i: usize = 0;
        while i < self.sb_queue.len()
            invariant
                i <= self.sb_queue@.len(),
                *self == *old(self),
                forall|k: int| 0 <= k < i ==> self.sb_queue@[k] != key,
            decreases self.sb_queue@.len() - i,
        {
            let waiting: PageKey = self.sb_queue[i];
            if waiting.0 == key.0 && waiting.1 == key.1 {
                assert(self.sb_queue@[i as int] == key);
                return;
            }
            i = i + 1;
        }
        self.sb_queue.push(key);
    }

    /// Take the oldest remembered page of an address space.
    pub fn take_deferred(&mut self, aspace: u64) -> (page: Option<u64>)
        ensures
            old(self).wf() ==> final(self).wf(),
            match page {
                Some(page) => exists|i: int|
                    {
                        &&& 0 <= i < old(self)@.queue.len()
                        &&& #[trigger] old(self)@.queue[i] == (aspace, page)
                        &&& forall|k: int| 0 <= k < i ==> old(self)@.queue[k].0 != aspace
                        &&& final(self)@ == (DiscoveryView {
                            queue: old(self)@.queue.remove(i),
                            ..old(self)@
                        })
                    },
                None => final(self)@ == old(self)@ && forall|k: int|
                    0 <= k < old(self)@.queue.len() ==> (#[trigger] old(self)@.queue[k]).0
                        != aspace,
            },
    {
        let mut i: usize = 0;
        while i < self.sb_queue.len()
            invariant
                i <= self.sb_queue@.len(),
                *self == *old(self),
                forall|k: int| 0 <= k < i ==> (#[trigger] self.sb_queue@[k]).0 != aspace,
            decreases self.sb_queue@.len() - i,
        {
            let waiting: PageKey = self.sb_queue[i];
            if waiting.0 == aspace {
                assert(old(self)@.queue[i as int] == (aspace, waiting.1));
                self.sb_queue.remove(i);
                return Some(waiting.1);
            }
            i = i + 1;
        }
        None
    }

    /// Address spaces come and go: drop the discovery of all of them once there
    /// are too many records.
    pub fn cap_spaces(&mut self)
        requires
            old(self).wf(),
        ensures
            final(self).wf(),
            final(self)@ == if old(self)@.entries.dom().len() > SB_SPACE_CAP {
                DiscoveryView {
                    entries: Map::empty(),
                    claims: ClaimsView { superblocked: Set::empty(), pending: Map::empty() },
                    builds: Map::empty(),
                    ..old(self)@
                }
            } else {
                old(self)@
            },
    {
        assert(self@.entries.dom() =~= self.page_entries@.dom());
        if self.page_entries.len() > SB_SPACE_CAP {
            self.page_entries.clear();
            self.superblocked.clear();
            self.pending_superblocks.clear();
            self.sb_gen.clear();
            assert(self@.entries =~= Map::empty());
            assert(self@.claims.superblocked =~= Set::empty());
        }
    }

    /// Drop the hot entries of all address spaces once there are too many
    /// records. Says whether they were.
    pub fn cap_hot_spaces(&mut self) -> (dropped: bool)
        requires
            old(self).wf(),
        ensures
            final(self).wf(),
            dropped == (old(self)@.hot.dom().len() > SB_SPACE_CAP),
            final(self)@ == if dropped {
                DiscoveryView { hot: Map::empty(), ..old(self)@ }
            } else {
                old(self)@
            },
    {
        assert(self@.hot.dom() =~= self.page_hot_entries@.dom());
        if self.page_hot_entries.len() > SB_SPACE_CAP {
            self.page_hot_entries.clear();
            assert(self@.hot =~= Map::empty());
            true
        } else {
            false
        }
    }

    // ---- claims ----

    /// Claim the pages of a build. A newer overlapping build takes the pages
    /// over without losing the state from before either build.
    pub fn claim_pending_superblock(&mut self, ticket: u64, aspace: u64, pages: &[PagePair])
        requires
            old(self).wf(),
            forall|k: int| 0 <= k < pages@.len() ==> (#[trigger] pages@[k]).1 >= RAM_BASE,
        ensures
            final(self).wf(),
            final(self)@ == (DiscoveryView {
                claims: old(self)@.claims.claimed(ticket, aspace, pages@, pages@.len() as int),
                ..old(self)@
            }),
    {
        let ghost was = self@;
        let mut i: usize = 0;
        while i < pages.len()
            invariant
                i <= pages@.len(),
                self.wf(),
                forall|k: int| 0 <= k < pages@.len() ==> (#[trigger] pages@[k]).1 >= RAM_BASE,
                self@ == (DiscoveryView {
                    claims: was.claims.claimed(ticket, aspace, pages@, i as int),
                    ..was
                }),
            decreases pages@.len() - i,
        {
            let ghost now = self@.claims;
            let (va, physical): (u64, u64) = pages[i];
            assert(pages@[i as int].1 >= RAM_BASE);
            let key: PageKey = (aspace, va);
            let prior: bool = match self.pending_superblocks.get(&key) {
                Some(claim) => claim.prior,
                None => self.superblocked.contains_key(&key),
            };
            let physical_page: u64 = (physical - RAM_BASE) / 0x1000;
            self.pending_superblocks.insert(
                key,
                PendingSuperblockClaim { ticket, prior, physical_page },
            );
            self.superblocked.insert(key, ());
            assert(self@.claims.superblocked =~= now.superblocked.insert(key));
            i = i + 1;
        }
    }

    /// Whether every page of a build still belongs to it.
    pub fn pending_superblock_is_current(&self, ticket: u64, aspace: u64, pages: &[PagePair]) -> (r:
        bool)
        ensures
            r == self@.claims.is_current(ticket, aspace, pages@),
    {
        let mut i: usize = 0;
        while i < pages.len()
            invariant
                i <= pages@.len(),
                forall|k: int|
                    0 <= k < i ==> self@.claims.pending.contains_key(
                        (aspace, (#[trigger] pages@[k]).0),
                    ) && self@.claims.pending[(aspace, pages@[k].0)].ticket == ticket,
            decreases pages@.len() - i,
        {
            let key: PageKey = (aspace, pages[i].0);
            let current: bool = match self.pending_superblocks.get(&key) {
                Some(claim) => claim.ticket == ticket,
                None => false,
            };
            if !current {
                assert(pages@[i as int].0 == key.1);
                return false;
            }
            i = i + 1;
        }
        true
    }

    /// Finish only page claims still owned by `ticket`. A newer overlapping
    /// build keeps its claims. Failed builds restore the state that existed
    /// before this chain of pending replacements began.
    pub fn finish_pending_superblock(
        &mut self,
        ticket: u64,
        aspace: u64,
        pages: &[PagePair],
        landed: bool,
    )
        requires
            old(self).wf(),
        ensures
            final(self).wf(),
            final(self)@ == (DiscoveryView {
                claims: old(self)@.claims.finished(
                    ticket,
                    aspace,
                    pages@,
                    landed,
                    pages@.len() as int,
                ),
                ..old(self)@
            }),
    {
        let ghost was = self@;
        let mut i: usize = 0;
        while i < pages.len()
            invariant
                i <= pages@.len(),
                self.wf(),
                self@ == (DiscoveryView {
                    claims: was.claims.finished(ticket, aspace, pages@, landed, i as int),
                    ..was
                }),
            decreases pages@.len() - i,
        {
            let ghost now = self@.claims;
            let key: PageKey = (aspace, pages[i].0);
            let claim: Option<PendingSuperblockClaim> = match self.pending_superblocks.get(&key) {
                Some(claim) => Some(*claim),
                None => None,
            };
            match claim {
                Some(claim) => {
                    if claim.ticket == ticket {
                        self.pending_superblocks.remove(&key);
                        if !landed && !claim.prior {
                            self.superblocked.remove(&key);
                            assert(self@.claims.superblocked =~= now.superblocked.remove(key));
                        }
                    }
                },
                None => {},
            }
            assert(self@.claims =~= now.finished_page(ticket, key, landed));
            i = i + 1;
        }
    }

    /// Forget what was discovered on pages whose code changed.
    pub fn invalidate<W>(
        &mut self,
        exact: &PageMap<()>,
        broad: &HashSet<u64>,
        modules: &PageMap<W>,
    )
        requires
            old(self).wf(),
        ensures
            final(self).wf(),
            final(self)@ == old(self)@.invalidated(exact@, broad@, modules@.dom()),
    {
        let ghost was = self@;
        let none: PageMap<()> = PageMap::new();
        assert(none@.dom() =~= Set::empty());
        self.page_entries.drop_pages(exact, broad, &none);
        self.page_hot_entries.drop_pages(exact, broad, modules);
        self.superblocked.drop_pages(exact, broad, &none);
        self.pending_superblocks.drop_pages(exact, broad, &none);
        self.sb_gen.drop_pages(exact, broad, &none);
        proof {
            let after = was.invalidated(exact@, broad@, modules@.dom());
            assert(self@.entries =~= after.entries);
            assert(self@.hot =~= after.hot);
            assert(self@.claims.superblocked =~= after.claims.superblocked);
            assert(self@ =~= after);
        }
    }
}

// ---- laws ----------------------------------------------------------------

proof fn lemma_claimed(
    v: ClaimsView,
    ticket: u64,
    aspace: u64,
    pages: Seq<PagePair>,
    n: int,
    key: PageKey,
)
    requires
        0 <= n <= pages.len(),
    ensures
        ({
            let hit = key.0 == aspace && exists|k: int|
                0 <= k < n && (#[trigger] pages[k]).0 == key.1;
            let now = v.claimed(ticket, aspace, pages, n);
            &&& now.prior(key) == v.prior(key)
            &&& hit ==> now.pending.contains_key(key) && now.pending[key].ticket == ticket
                && now.superblocked.contains(key)
            &&& !hit ==> now.pending.contains_key(key) == v.pending.contains_key(key)
                && now.pending[key] == v.pending[key] && now.superblocked.contains(key)
                == v.superblocked.contains(key)
        }),
    decreases n,
{
    if n > 0 {
        lemma_claimed(v, ticket, aspace, pages, n - 1, key);
        assert(pages[n - 1].0 == pages[n - 1].0);
    }
}

/// The latest build owns the pages that builds share: it is current, and an
/// older build that shares a page with it is not.
pub proof fn law_latest_claim_owns_shared_pages(
    v: ClaimsView,
    first: u64,
    first_pages: Seq<PagePair>,
    second: u64,
    second_pages: Seq<PagePair>,
    aspace: u64,
    j: int,
    k: int,
)
    requires
        first != second,
        0 <= j < first_pages.len(),
        0 <= k < second_pages.len(),
        first_pages[j].0 == second_pages[k].0,
    ensures
        ({
            let now = v.claimed(first, aspace, first_pages, first_pages.len() as int).claimed(
                second,
                aspace,
                second_pages,
                second_pages.len() as int,
            );
            now.is_current(second, aspace, second_pages) && !now.is_current(
                first,
                aspace,
                first_pages,
            )
        }),
{
    let mid = v.claimed(first, aspace, first_pages, first_pages.len() as int);
    let now = mid.claimed(second, aspace, second_pages, second_pages.len() as int);
    assert forall|i: int| 0 <= i < second_pages.len() implies now.pending.contains_key(
        (aspace, (#[trigger] second_pages[i]).0),
    ) && now.pending[(aspace, second_pages[i].0)].ticket == second by {
        lemma_claimed(
            mid,
            second,
            aspace,
            second_pages,
            second_pages.len() as int,
            (aspace, second_pages[i].0),
        );
    }
    let key = (aspace, first_pages[j].0);
    assert(now.pending[(aspace, second_pages[k].0)].ticket == second);
    assert(now.pending[key].ticket == second);
}

proof fn lemma_finished(
    v: ClaimsView,
    ticket: u64,
    aspace: u64,
    pages: Seq<PagePair>,
    landed: bool,
    n: int,
    key: PageKey,
)
    requires
        0 <= n <= pages.len(),
    ensures
        ({
            let hit = key.0 == aspace && (exists|k: int|
                0 <= k < n && (#[trigger] pages[k]).0 == key.1) && v.pending.contains_key(key)
                && v.pending[key].ticket == ticket;
            let now = v.finished(ticket, aspace, pages, landed, n);
            &&& hit ==> !now.pending.contains_key(key)
            &&& !hit ==> now.pending.contains_key(key) == v.pending.contains_key(key)
                && now.pending[key] == v.pending[key]
            &&& now.superblocked.contains(key) == (v.superblocked.contains(key) && !(hit && !landed
                && !v.pending[key].prior))
        }),
    decreases n,
{
    if n > 0 {
        lemma_finished(v, ticket, aspace, pages, landed, n - 1, key);
        assert(pages[n - 1].0 == pages[n - 1].0);
    }
}

/// A build that fails restores which pages were covered before it began, and
/// leaves no claim.
pub proof fn law_failed_build_restores_claims(
    v: ClaimsView,
    ticket: u64,
    aspace: u64,
    pages: Seq<PagePair>,
)
    requires
        forall|k: int|
            0 <= k < pages.len() ==> !v.pending.contains_key((aspace, (#[trigger] pages[k]).0)),
    ensures
        ({
            let n = pages.len() as int;
            let now = v.claimed(ticket, aspace, pages, n).finished(
                ticket,
                aspace,
                pages,
                false,
                n,
            );
            now.superblocked =~= v.superblocked && now.pending =~= v.pending
        }),
{
    let n = pages.len() as int;
    let mid = v.claimed(ticket, aspace, pages, n);
    let now = mid.finished(ticket, aspace, pages, false, n);
    assert forall|key: PageKey| #[trigger]
        now.superblocked.contains(key) == v.superblocked.contains(key) by {
        lemma_claimed(v, ticket, aspace, pages, n, key);
        lemma_finished(mid, ticket, aspace, pages, false, n, key);
    }
    assert forall|key: PageKey| #[trigger]
        now.pending.contains_key(key) == v.pending.contains_key(key) && (v.pending.contains_key(
            key,
        ) ==> now.pending[key] == v.pending[key]) by {
        lemma_claimed(v, ticket, aspace, pages, n, key);
        lemma_finished(mid, ticket, aspace, pages, false, n, key);
    }
}

/// Builds that follow one another on the same pages keep what was there before
/// the first of them: when the last one fails, exactly that is restored.
pub proof fn law_replaced_builds_restore_the_first(
    v: ClaimsView,
    first: u64,
    second: u64,
    aspace: u64,
    pages: Seq<PagePair>,
)
    requires
        forall|k: int|
            0 <= k < pages.len() ==> !v.pending.contains_key((aspace, (#[trigger] pages[k]).0)),
    ensures
        ({
            let n = pages.len() as int;
            let now = v.claimed(first, aspace, pages, n).claimed(
                second,
                aspace,
                pages,
                n,
            ).finished(second, aspace, pages, false, n);
            now.superblocked =~= v.superblocked && now.pending =~= v.pending
        }),
{
    let n = pages.len() as int;
    let one = v.claimed(first, aspace, pages, n);
    let two = one.claimed(second, aspace, pages, n);
    let now = two.finished(second, aspace, pages, false, n);
    assert forall|key: PageKey| #[trigger]
        now.superblocked.contains(key) == v.superblocked.contains(key) by {
        lemma_claimed(v, first, aspace, pages, n, key);
        lemma_claimed(one, second, aspace, pages, n, key);
        lemma_finished(two, second, aspace, pages, false, n, key);
    }
    assert forall|key: PageKey| #[trigger]
        now.pending.contains_key(key) == v.pending.contains_key(key) && (v.pending.contains_key(
            key,
        ) ==> now.pending[key] == v.pending[key]) by {
        lemma_claimed(v, first, aspace, pages, n, key);
        lemma_claimed(one, second, aspace, pages, n, key);
        lemma_finished(two, second, aspace, pages, false, n, key);
    }
}

/// A change of code that is known exactly leaves the same virtual page of other
/// address spaces alone.
pub proof fn law_exact_invalidation_spares_other_spaces(
    v: DiscoveryView,
    exact: Map<PageKey, ()>,
    modules: Set<PageKey>,
    key: PageKey,
)
    requires
        !exact.contains_key(key),
    ensures
        ({
            let now = v.invalidated(exact, Set::empty(), modules);
            &&& now.entries.contains_key(key) == v.entries.contains_key(key)
            &&& now.hot.contains_key(key) == v.hot.contains_key(key)
            &&& now.claims.superblocked.contains(key) == v.claims.superblocked.contains(key)
            &&& now.claims.pending.contains_key(key) == v.claims.pending.contains_key(key)
            &&& now.builds.contains_key(key) == v.builds.contains_key(key)
        }),
{
}

} // verus!
