//! What goes when guest code is written or address spaces change.

use vstd::prelude::*;
use std::collections::HashSet;
use crate::jit::block::{
    page_base, page_of, ModuleView, PageModuleState, PendingBlock, PendingView,
};
use crate::jit::code::{backs_in, ram_page, slot_in, CodeView};
use crate::jit::index::{PageKey, PageMap};
use crate::jit::pages::{ClaimsView, DiscoveryView, SB_SPACE_CAP};
use crate::jit::recency::JitOwnerId;
use crate::jit::state::{staged, uncovered, JitState, JitView, StagedBlock, StagedView};
use crate::ram::{JitPageState, JitPages, RAM_BASE};

verus! {

broadcast use vstd::std_specs::hash::group_hash_axioms;

/// Whether key `a` comes before key `b`.
pub open spec fn key_before(a: PageKey, b: PageKey) -> bool {
    a.0 < b.0 || (a.0 == b.0 && a.1 < b.1)
}

/// Each key comes before the next.
pub open spec fn keys_ascending(keys: Seq<PageKey>) -> bool {
    forall|i: int, j: int| 0 <= i < j < keys.len() ==> key_before(#[trigger] keys[i], #[trigger] keys[j])
}

/// Put a key in its place, unless it is there.
fn insert_key(keys: &mut Vec<PageKey>, key: PageKey)
    requires
        keys_ascending(old(keys)@),
    ensures
        keys_ascending(final(keys)@),
        forall|k: PageKey| #[trigger] final(keys)@.contains(k) <==> old(keys)@.contains(k) || k == key,
{
    let ghost was = keys@;
    let mut at: usize = 0;
    while at < keys.len() && (keys[at].0 < key.0 || (keys[at].0 == key.0 && keys[at].1 < key.1))
        invariant
            at <= keys@.len(),
            keys@ == was,
            forall|i: int| 0 <= i < at ==> key_before(#[trigger] was[i], key),
        decreases keys@.len() - at,
    {
        at = at + 1;
    }
    if at < keys.len() && keys[at].0 == key.0 && keys[at].1 == key.1 {
        assert(was[at as int] == key);
        return;
    }
    keys.insert(at, key);
    proof {
        let now = keys@;
        assert(at < was.len() ==> key_before(key, was[at as int]));
        assert forall|i: int, j: int| 0 <= i < j < now.len() implies key_before(
            #[trigger] now[i],
            #[trigger] now[j],
        ) by {
            let a = if i < at {
                i
            } else {
                i - 1
            };
            let b = if j < at {
                j
            } else {
                j - 1
            };
            if i == at {
                assert(now[j] == was[b]);
                if b > at {
                    assert(key_before(was[at as int], was[b]));
                }
            } else if j == at {
                assert(now[i] == was[a]);
            } else {
                assert(now[i] == was[a] && now[j] == was[b]);
                assert(key_before(was[a], was[b]));
            }
        }
        assert(now[at as int] == key);
        assert forall|k: PageKey| #[trigger] now.contains(k) <==> was.contains(k) || k == key by {
            if was.contains(k) {
                let i = choose|i: int| 0 <= i < was.len() && was[i] == k;
                if i < at {
                    assert(now[i] == k);
                } else {
                    assert(now[i + 1] == k);
                }
            }
            if now.contains(k) && k != key {
                let i = choose|i: int| 0 <= i < now.len() && now[i] == k;
                if i < at {
                    assert(was[i] == k);
                } else {
                    assert(was[i - 1] == k);
                }
            }
        }
    }
}

/// Whether a build or a module was, or is to be, compiled from a RAM page for
/// this page of an address space.
pub open spec fn is_from(v: JitView, page: u64, key: PageKey) -> bool {
    ||| v.pages.claims.pending.contains_key(key) && v.pages.claims.pending[key].physical_page == page
    ||| v.code.modules.contains_key(key) && v.code.modules[key].source().physical_page == page
}

/// Whether the code of a block comes from a RAM page.
pub open spec fn block_from(block: PendingView, page: u64) -> bool {
    exists|k: int|
        0 <= k < block.pages.len() && (#[trigger] block.pages[k]).1 >= RAM_BASE && ram_page(
            block.pages[k].1,
        ) == page
}

fn comes_from(block: &PendingBlock, page: u64) -> (r: bool)
    ensures
        r == block_from(block@, page),
{
    let mut i: usize = 0;
    while i < block.pages.len()
        invariant
            i <= block.pages@.len(),
            forall|k: int|
                0 <= k < i ==> !((#[trigger] block.pages@[k]).1 >= RAM_BASE && ram_page(
                    block.pages@[k].1,
                ) == page),
        decreases block.pages@.len() - i,
    {
        let physical: u64 = block.pages[i].1;
        if physical >= RAM_BASE && (physical - RAM_BASE) / 0x1000 == page {
            assert(block@.pages[i as int].1 == physical);
            return true;
        }
        i = i + 1;
    }
    false
}

/// The staged blocks among the first `n` that do not come from a RAM page.
pub open spec fn stage_without(stage: Seq<StagedView>, page: u64, n: int) -> Seq<StagedView>
    decreases n,
{
    if n <= 0 {
        Seq::empty()
    } else if block_from(stage[n - 1].pending, page) {
        stage_without(stage, page, n - 1)
    } else {
        stage_without(stage, page, n - 1).push(stage[n - 1])
    }
}

/// The coverage after the staged blocks among the first `n` that come from a RAM
/// page were given up.
pub open spec fn coverage_without(
    coverage: Map<(u64, u64), u16>,
    stage: Seq<StagedView>,
    page: u64,
    n: int,
) -> Map<(u64, u64), u16>
    decreases n,
{
    if n <= 0 {
        coverage
    } else {
        let before = coverage_without(coverage, stage, page, n - 1);
        let block = stage[n - 1].pending;
        if block_from(block, page) {
            uncovered(before, block.aspace, block.trace_pcs, block.trace_pcs.len() as int)
        } else {
            before
        }
    }
}

impl JitView {
    /// The modules that run for some pages.
    pub open spec fn owners_for(self, exact: Map<PageKey, ()>) -> Set<JitOwnerId> {
        Set::new(
            |owner: JitOwnerId|
                exists|key: PageKey| #[trigger]
                    exact.contains_key(key) && self.code.modules.contains_key(key)
                        && self.code.modules[key].active_owner() == Some(owner),
        )
    }
}

/// Whether `now` is `v` after the first `n` of some modules were retired in turn.
pub open spec fn retired_in_turn(
    v: JitView,
    owners: Seq<JitOwnerId>,
    n: int,
    now: JitView,
) -> bool
    decreases n,
{
    if n <= 0 {
        now == v
    } else {
        exists|mid: JitView|
            retired_in_turn(v, owners, n - 1, mid) && #[trigger] mid.without_module(
                now,
                owners[n - 1],
                false,
            )
    }
}

proof fn lemma_retired_next(
    v: JitView,
    owners: Seq<JitOwnerId>,
    n: int,
    mid: JitView,
    now: JitView,
)
    requires
        0 <= n,
        retired_in_turn(v, owners, n, mid),
        mid.without_module(now, owners[n], false),
    ensures
        retired_in_turn(v, owners, n + 1, now),
{
    assert(mid.without_module(now, owners[(n + 1) - 1], false));
}

impl JitView {
    /// Whether `now` is this state after what was compiled or discovered on some
    /// pages was forgotten: discovery first, then the modules that run for pages
    /// of `exact`, in some order, then the records of those pages.
    pub open spec fn invalidated(
        self,
        now: JitView,
        exact: Map<PageKey, ()>,
        broad: Set<u64>,
    ) -> bool {
        exists|owners: Seq<JitOwnerId>, mid: JitView|
            {
                &&& forall|owner: JitOwnerId| #[trigger]
                    owners.contains(owner) <==> self.owners_for(exact).contains(owner)
                &&& #[trigger] retired_in_turn(
                    JitView {
                        pages: self.pages.invalidated(exact, broad, self.code.modules.dom()),
                        ..self
                    },
                    owners,
                    owners.len() as int,
                    mid,
                )
                &&& now == (JitView {
                    code: CodeView {
                        modules: mid.code.modules.remove_keys(exact.dom()),
                        ..mid.code
                    },
                    ..mid
                })
            }
    }
}

/// Whether `now` is `was` with everything of some modules gone from the code
/// cache, and at most records of those modules gone otherwise.
pub open spec fn modules_gone(was: CodeView, now: CodeView, owners: Set<JitOwnerId>) -> bool {
    &&& now.cache == was.cache.remove_keys(
        Set::new(|pc: u64| was.owner_at(pc) is Some && owners.contains(was.owner_at(pc)->0)),
    )
    &&& now.slot_owner == was.slot_owner.remove_keys(
        Set::new(
            |idx: i32| was.slot_owner.contains_key(idx) && owners.contains(was.slot_owner[idx]),
        ),
    )
    &&& now.recency == was.recency.remove_keys(owners)
    &&& now.module_key == was.module_key.remove_keys(owners)
    &&& forall|key: PageKey|
        (was.modules.contains_key(key) && !(was.modules[key].active_owner() is Some
            && owners.contains(was.modules[key].active_owner()->0))) ==> #[trigger]
            now.modules.contains_key(key) && now.modules[key] == was.modules[key]
    &&& forall|key: PageKey| #[trigger]
        now.modules.contains_key(key) ==> was.modules.contains_key(key)
}

proof fn lemma_one_more_gone(
    was: CodeView,
    mid: CodeView,
    now: CodeView,
    owners: Set<JitOwnerId>,
    owner: JitOwnerId,
)
    requires
        modules_gone(was, mid, owners),
        mid.without_module(now, owner, false),
    ensures
        modules_gone(was, now, owners.insert(owner)),
{
    let more = owners.insert(owner);
    assert forall|pc: u64| #[trigger] mid.entries_of(owner).contains(pc) implies was.owner_at(pc)
        == Some(owner) by {
        assert(mid.owner_at(pc) == Some(owner));
    }
    assert forall|pc: u64|
        was.owner_at(pc) == Some(owner) && !owners.contains(owner) implies mid.owner_at(pc)
        == Some(owner) by {
    }
    assert(now.cache =~= was.cache.remove_keys(
        Set::new(|pc: u64| was.owner_at(pc) is Some && more.contains(was.owner_at(pc)->0)),
    ));
    assert(now.slot_owner =~= was.slot_owner.remove_keys(
        Set::new(
            |idx: i32| was.slot_owner.contains_key(idx) && more.contains(was.slot_owner[idx]),
        ),
    ));
    assert(now.recency =~= was.recency.remove_keys(more));
    assert(now.module_key =~= was.module_key.remove_keys(more));
    assert forall|key: PageKey|
        (was.modules.contains_key(key) && !(was.modules[key].active_owner() is Some
            && more.contains(was.modules[key].active_owner()->0))) implies #[trigger]
    now.modules.contains_key(key) && now.modules[key] == was.modules[key] by {
        assert(mid.modules.contains_key(key) && mid.modules[key] == was.modules[key]);
    }
}

impl JitState {
    /// The pages, in order, that a build or a module was, or is to be, compiled
    /// for from a RAM page.
    pub fn tracked_page_keys_for_physical(&self, physical_page: u64) -> (keys: Vec<PageKey>)
        ensures
            keys_ascending(keys@),
            forall|key: PageKey| #[trigger]
                keys@.contains(key) <==> is_from(self@, physical_page, key),
    {
        let mut keys: Vec<PageKey> = Vec::new();
        let pending: Vec<PageKey> = self.pages.pending_superblocks.keys();
        let mut i: usize = 0;
        while i < pending.len()
            invariant
                i <= pending@.len(),
                keys_ascending(keys@),
                forall|key: PageKey| #[trigger]
                    pending@.contains(key) <==> self@.pages.claims.pending.contains_key(key),
                forall|key: PageKey| #[trigger]
                    keys@.contains(key) <==> self@.pages.claims.pending.contains_key(key)
                        && self@.pages.claims.pending[key].physical_page == physical_page
                        && exists|k: int| 0 <= k < i && #[trigger] pending@[k] == key,
            decreases pending@.len() - i,
        {
            let key: PageKey = pending[i];
            assert(pending@.contains(key));
            match self.pages.pending_superblocks.get(&key) {
                Some(claim) => {
                    if claim.physical_page == physical_page {
                        insert_key(&mut keys, key);
                    }
                },
                None => {},
            }
            assert(pending@[i as int] == key);
            i = i + 1;
        }
        let ghost claims = keys@;
        assert forall|key: PageKey| #[trigger]
            claims.contains(key) <==> self@.pages.claims.pending.contains_key(key)
                && self@.pages.claims.pending[key].physical_page == physical_page by {
            if self@.pages.claims.pending.contains_key(key) {
                assert(pending@.contains(key));
                let k = choose|k: int| 0 <= k < pending@.len() && pending@[k] == key;
                assert(pending@[k] == key);
            }
        }
        let modules: Vec<PageKey> = self.code.page_modules.keys();
        let mut i: usize = 0;
        while i < modules.len()
            invariant
                i <= modules@.len(),
                keys_ascending(keys@),
                forall|key: PageKey| #[trigger]
                    modules@.contains(key) <==> self.code.page_modules@.contains_key(key),
                forall|key: PageKey| #[trigger]
                    keys@.contains(key) <==> claims.contains(key) || (
                    self.code.page_modules@.contains_key(key)
                        && self.code.page_modules@[key]@.source().physical_page == physical_page
                        && exists|k: int| 0 <= k < i && #[trigger] modules@[k] == key),
            decreases modules@.len() - i,
        {
            let key: PageKey = modules[i];
            assert(modules@.contains(key));
            match self.code.page_modules.get(&key) {
                Some(state) => {
                    if state.source().physical_page == physical_page {
                        insert_key(&mut keys, key);
                    }
                },
                None => {},
            }
            assert(modules@[i as int] == key);
            i = i + 1;
        }
        assert forall|key: PageKey| #[trigger] keys@.contains(key) <==> is_from(
            self@,
            physical_page,
            key,
        ) by {
            assert(keys@.contains(key) || !keys@.contains(key));
            if self.code.page_modules@.contains_key(key) {
                assert(modules@.contains(key));
                let k = choose|k: int| 0 <= k < modules@.len() && modules@[k] == key;
                assert(modules@[k] == key);
            }
        }
        keys
    }

    /// Forget what was compiled or discovered on pages whose code changed: the
    /// pages of `exact`, and those of `broad` in every address space. A page
    /// module goes as a whole, and only with a page of `exact`.
    pub fn invalidate_superblock_state(&mut self, exact: &PageMap<()>, broad: &HashSet<u64>)
        requires
            old(self).wf(),
        ensures
            final(self).wf(),
            old(self)@.invalidated(final(self)@, exact@, broad@),
            final(self)@.pages == old(self)@.pages.invalidated(
                exact@,
                broad@,
                old(self)@.code.modules.dom(),
            ),
            final(self)@.code.cache == old(self)@.code.cache.remove_keys(
                Set::new(
                    |pc: u64|
                        old(self)@.code.owner_at(pc) is Some && old(self)@.owners_for(
                            exact@,
                        ).contains(old(self)@.code.owner_at(pc)->0),
                ),
            ),
            final(self)@.code.slot_owner == old(self)@.code.slot_owner.remove_keys(
                Set::new(
                    |idx: i32|
                        old(self)@.code.slot_owner.contains_key(idx) && old(self)@.owners_for(
                            exact@,
                        ).contains(old(self)@.code.slot_owner[idx]),
                ),
            ),
            final(self)@.code.module_key == old(self)@.code.module_key.remove_keys(
                old(self)@.owners_for(exact@),
            ),
            forall|key: PageKey| exact@.contains_key(key) ==> !(#[trigger]
            final(self)@.code.modules.contains_key(key)),
            forall|key: PageKey|
                (!exact@.contains_key(key) && old(self)@.code.modules.contains_key(key) && !(
                old(self)@.code.modules[key].active_owner() is Some && old(self)@.owners_for(
                    exact@,
                ).contains(old(self)@.code.modules[key].active_owner()->0))) ==> #[trigger]
                    final(self)@.code.modules.contains_key(key)
                    && final(self)@.code.modules[key] == old(self)@.code.modules[key],
            shrunk(old(self)@.code, final(self)@.code),
            final(self)@.stage == old(self)@.stage,
            final(self)@.coverage == old(self)@.coverage,
            final(self)@.succ == old(self)@.succ,
            final(self)@.bails == old(self)@.bails,
            final(self)@.heat == old(self)@.heat,
            final(self)@.flush_gen == old(self)@.flush_gen,
            final(self)@.evictions == old(self)@.evictions,
    {
        let ghost was = self@;
        assert(self.code.page_modules@.dom() =~= was.code.modules.dom());
        self.pages.invalidate(exact, broad, &self.code.page_modules);
        let keys: Vec<PageKey> = exact.keys();
        // The owners are collected before any of them goes.
        let mut owners: Vec<JitOwnerId> = Vec::new();
        let mut i: usize = 0;
        while i < keys.len()
            invariant
                i <= keys@.len(),
                self.code@ == was.code,
                forall|key: PageKey| #[trigger] keys@.contains(key) <==> exact@.contains_key(key),
                forall|owner: JitOwnerId| #[trigger]
                    owners@.contains(owner) <==> exists|k: int|
                        0 <= k < i && was.code.modules.contains_key(#[trigger] keys@[k])
                            && was.code.modules[keys@[k]].active_owner() == Some(owner),
            decreases keys@.len() - i,
        {
            let key: PageKey = keys[i];
            let ghost before = owners@;
            match self.code.page_modules.get(&key) {
                Some(state) => match state.active_owner() {
                    Some(owner) => {
                        owners.push(owner);
                        assert forall|o: JitOwnerId| #[trigger]
                            owners@.contains(o) <==> before.contains(o) || o == owner by {
                            if before.contains(o) {
                                let j = choose|j: int| 0 <= j < before.len() && before[j] == o;
                                assert(owners@[j] == o);
                            }
                            assert(owners@[before.len() as int] == owner);
                            if owners@.contains(o) && o != owner {
                                let j = choose|j: int|
                                    0 <= j < owners@.len() && owners@[j] == o;
                                assert(before[j] == o);
                            }
                        }
                    },
                    None => {},
                },
                None => {},
            }
            assert(keys@[i as int] == key);
            i = i + 1;
        }
        let ghost all = was.owners_for(exact@);
        assert forall|owner: JitOwnerId| #[trigger] owners@.contains(owner) <==> all.contains(
            owner,
        ) by {
            if owners@.contains(owner) {
                let k = choose|k: int|
                    0 <= k < keys@.len() && was.code.modules.contains_key(#[trigger] keys@[k])
                        && was.code.modules[keys@[k]].active_owner() == Some(owner);
                assert(keys@.contains(keys@[k]));
                assert(exact@.contains_key(keys@[k]));
            }
            if all.contains(owner) {
                let key = choose|key: PageKey| #[trigger]
                    exact@.contains_key(key) && was.code.modules.contains_key(key)
                        && was.code.modules[key].active_owner() == Some(owner);
                assert(keys@.contains(key));
                let k = choose|k: int| 0 <= k < keys@.len() && keys@[k] == key;
                assert(was.code.modules.contains_key(keys@[k]));
            }
        }
        let mut i: usize = 0;
        let ghost mut gone: Set<JitOwnerId> = Set::empty();
        proof {
            assert(was.code.cache.remove_keys(
                Set::new(
                    |pc: u64|
                        was.code.owner_at(pc) is Some && gone.contains(was.code.owner_at(pc)->0),
                ),
            ) =~= was.code.cache);
            assert(was.code.slot_owner.remove_keys(
                Set::new(
                    |idx: i32|
                        was.code.slot_owner.contains_key(idx) && gone.contains(
                            was.code.slot_owner[idx],
                        ),
                ),
            ) =~= was.code.slot_owner);
            assert(was.code.recency.remove_keys(gone) =~= was.code.recency);
            assert(was.code.module_key.remove_keys(gone) =~= was.code.module_key);
        }
        let ghost pages = self@.pages;
        let ghost start = self@;
        assert(retired_in_turn(start, owners@, 0, self@));
        while i < owners.len()
            invariant
                i <= owners@.len(),
                self.wf(),
                retired_in_turn(start, owners@, i as int, self@),
                self@.pages == pages,
                self@.stage == was.stage,
                self@.coverage == was.coverage,
                self@.succ == was.succ,
                self@.bails == was.bails,
                self@.heat == was.heat,
                self@.flush_gen == was.flush_gen,
                self@.evictions == was.evictions,
                modules_gone(was.code, self@.code, gone),
                shrunk(was.code, self@.code),
                forall|owner: JitOwnerId| #[trigger]
                    gone.contains(owner) <==> exists|k: int|
                        0 <= k < i && #[trigger] owners@[k] == owner,
            decreases owners@.len() - i,
        {
            let owner: JitOwnerId = owners[i];
            let ghost mid = self@;
            self.retire_owner(owner, false);
            proof {
                let pcs = choose|pcs: Seq<u64>|
                    {
                        &&& pcs.no_duplicates()
                        &&& pcs.to_set() =~= mid.code.entries_of(owner)
                        &&& #[trigger] mid.module_stripped(self@, owner, false, pcs)
                    };
                lemma_one_more_gone(was.code, mid.code, self@.code, gone, owner);
                lemma_module_shrinks(mid.code, self@.code, owner);
                lemma_shrunk_twice(was.code, mid.code, self@.code);
                gone = gone.insert(owner);
                assert(owners@[i as int] == owner);
                lemma_retired_next(start, owners@, i as int, mid, self@);
            }
            i = i + 1;
        }
        let ghost retired = self@;
        assert(gone =~= all) by {
            assert forall|owner: JitOwnerId| #[trigger] gone.contains(owner) <==> all.contains(
                owner,
            ) by {
                assert(owners@.contains(owner) <==> all.contains(owner));
            }
        }
        let ghost between = self@.code;
        let mut i: usize = 0;
        while i < keys.len()
            invariant
                i <= keys@.len(),
                self.wf(),
                self@.pages == pages,
                self@.stage == was.stage,
                self@.coverage == was.coverage,
                self@.succ == was.succ,
                self@.bails == was.bails,
                self@.heat == was.heat,
                self@.flush_gen == was.flush_gen,
                self@.evictions == was.evictions,
                self@ == (JitView {
                    code: CodeView { modules: self@.code.modules, ..between },
                    ..retired
                }),
                retired.code == between,
                forall|key: PageKey| #[trigger]
                    self@.code.modules.contains_key(key) <==> between.modules.contains_key(key)
                        && !(exists|k: int| 0 <= k < i && #[trigger] keys@[k] == key),
                forall|key: PageKey| #[trigger]
                    self@.code.modules.contains_key(key) ==> self@.code.modules[key]
                        == between.modules[key],
            decreases keys@.len() - i,
        {
            let ghost before = self@.code.modules;
            let key: PageKey = keys[i];
            self.code.page_modules.remove(&key);
            assert(self@.code.modules =~= before.remove(key));
            assert(keys@[i as int] == key);
            i = i + 1;
        }
        proof {
            assert(shrunk(between, self@.code));
            lemma_shrunk_twice(was.code, between, self@.code);
            assert forall|key: PageKey| #[trigger] exact@.dom().contains(key) <==> exists|k: int|
                0 <= k < keys@.len() && #[trigger] keys@[k] == key by {
                assert(keys@.contains(key) <==> exact@.contains_key(key));
            }
            assert(self@.code.modules =~= between.modules.remove_keys(exact@.dom()));
            assert(start == (JitView {
                pages: was.pages.invalidated(exact@, broad@, was.code.modules.dom()),
                ..was
            }));
            assert(was.invalidated(self@, exact@, broad@));
        }
        assert forall|key: PageKey| exact@.contains_key(key) implies !(#[trigger]
        self@.code.modules.contains_key(key)) by {
            assert(keys@.contains(key));
            let k = choose|k: int| 0 <= k < keys@.len() && keys@[k] == key;
            assert(keys@[k] == key);
        }
        assert forall|key: PageKey|
            (!exact@.contains_key(key) && was.code.modules.contains_key(key) && !(
            was.code.modules[key].active_owner() is Some && all.contains(
                was.code.modules[key].active_owner()->0,
            ))) implies #[trigger] self@.code.modules.contains_key(key) && self@.code.modules[key]
            == was.code.modules[key] by {
            assert(between.modules.contains_key(key));
            if exists|k: int| 0 <= k < keys@.len() && #[trigger] keys@[k] == key {
                assert(keys@.contains(key));
            }
        }
    }
}

// ---- written code --------------------------------------------------------

/// Whether `now` is `was` with at most some things gone: entries, slots, the
/// page lists of slots that are gone, and modules.
pub open spec fn shrunk(was: CodeView, now: CodeView) -> bool {
    &&& forall|pc: u64| #[trigger]
        now.cache.contains_key(pc) ==> was.cache.contains_key(pc) && now.cache[pc]
            == was.cache[pc]
    &&& forall|idx: i32| #[trigger]
        now.slot_owner.contains_key(idx) ==> was.slot_owner.contains_key(idx)
            && now.slot_owner[idx] == was.slot_owner[idx]
    &&& forall|idx: i32| #[trigger]
        now.regions.contains_key(idx) ==> was.regions.contains_key(idx) && now.regions[idx]
            == was.regions[idx]
    &&& forall|idx: i32| #[trigger]
        was.regions.contains_key(idx) && !now.regions.contains_key(idx)
            ==> !now.slot_owner.contains_key(idx)
    &&& forall|key: PageKey| #[trigger]
        now.modules.contains_key(key) ==> was.modules.contains_key(key)
            && now.modules[key].source() == was.modules[key].source() && (
        now.modules[key].active_owner() is Some ==> was.modules[key].active_owner()
            == now.modules[key].active_owner())
}

proof fn lemma_shrunk_twice(a: CodeView, b: CodeView, c: CodeView)
    requires
        shrunk(a, b),
        shrunk(b, c),
    ensures
        shrunk(a, c),
{
    assert forall|idx: i32| #[trigger]
        a.regions.contains_key(idx) && !c.regions.contains_key(idx) implies !c.slot_owner.contains_key(
        idx,
    ) by {
        if b.regions.contains_key(idx) {
            assert(!c.slot_owner.contains_key(idx));
        } else {
            assert(!b.slot_owner.contains_key(idx));
        }
    }
}

/// Code that lies on a page in a state that shrank lay there before.
proof fn lemma_shrunk_backs(was: CodeView, now: CodeView, page: u64, pc: u64)
    requires
        shrunk(was, now),
        was.wf(),
        now.wf(),
    ensures
        backs_in(now.cache, now.regions, page, pc) ==> backs_in(was.cache, was.regions, page, pc),
        now.cache.contains_key(pc) ==> backs_in(now.cache, now.regions, page, pc) == backs_in(
            was.cache,
            was.regions,
            page,
            pc,
        ),
{
    if now.cache.contains_key(pc) && now.cache[pc] is Some {
        let block = now.cache[pc]->0;
        assert(was.cache[pc] == now.cache[pc]);
        if was.regions.contains_key(block.idx) && !now.regions.contains_key(block.idx) {
            assert(block.idx >= 0);
            assert(slot_in(now.cache, pc) == Some(block.idx));
            assert(now.slot_owner.contains_key(block.idx));
        }
    }
}

proof fn lemma_forgotten_shrinks(v: CodeView, owner: JitOwnerId)
    ensures
        shrunk(v, v.forgotten(owner)),
{
}

proof fn lemma_dropped_shrinks(v: CodeView, pc: u64, evicted: bool)
    ensures
        shrunk(v, v.dropped(pc, evicted)),
{
    let mid = CodeView { cache: v.cache.remove(pc), ..v };
    assert(shrunk(v, mid));
    if v.slot_at(pc) is Some {
        let idx = v.slot_at(pc)->0;
        if mid.uses(idx) =~= Set::empty() && mid.slot_owner.contains_key(idx) {
            let owner = mid.slot_owner[idx];
            let after = CodeView {
                slot_owner: mid.slot_owner.remove(idx),
                regions: mid.regions.remove(idx),
                exits: mid.exits.remove(idx),
                ext_queue: crate::jit::index::others(mid.ext_queue, idx),
                table: mid.table.retired_slot(idx, evicted),
                ..mid
            };
            assert(shrunk(mid, after));
            lemma_forgotten_shrinks(after, owner);
            lemma_shrunk_twice(mid, after, after.forgotten(owner));
            lemma_shrunk_twice(v, mid, mid.without_slot(idx, evicted));
        }
    }
}

proof fn lemma_dropped_all_shrinks(v: CodeView, pcs: Seq<u64>, n: int)
    ensures
        shrunk(v, v.dropped_all(pcs, n, false)),
    decreases n,
{
    if n > 0 {
        lemma_dropped_all_shrinks(v, pcs, n - 1);
        let mid = v.dropped_all(pcs, n - 1, false);
        lemma_dropped_shrinks(mid, pcs[n - 1], false);
        lemma_shrunk_twice(v, mid, v.dropped_all(pcs, n, false));
    }
}

proof fn lemma_module_shrinks(was: CodeView, now: CodeView, owner: JitOwnerId)
    requires
        was.without_module(now, owner, false),
    ensures
        shrunk(was, now),
{
    lemma_forgotten_shrinks(was, owner);
}

/// The virtual pages of some entries.
pub open spec fn page_bases(pcs: Seq<u64>) -> Set<u64> {
    Set::new(|page: u64| exists|k: int| 0 <= k < pcs.len() && page_base(#[trigger] pcs[k]) == page)
}

/// Whether `now` is `v` after what was compiled from a RAM page was dropped: the
/// entries `pcs`, whose code lies on it, and staged blocks. The pages on which
/// discovery has to start again are added to `exact` and `broad`.
pub open spec fn page_drained(
    v: JitView,
    now: JitView,
    page: u64,
    pcs: Seq<u64>,
    exact: Map<PageKey, ()>,
    exact_now: Map<PageKey, ()>,
    broad: Set<u64>,
    broad_now: Set<u64>,
) -> bool {
    &&& pcs.no_duplicates()
    &&& forall|pc: u64| #[trigger]
        pcs.contains(pc) <==> backs_in(v.code.cache, v.code.regions, page, pc)
    &&& now == (JitView {
        code: v.code.dropped_all(pcs, pcs.len() as int, false),
        lines: v.lines.without_lines(pcs, pcs.len() as int),
        stage: stage_without(v.stage, page, v.stage.len() as int),
        coverage: coverage_without(v.coverage, v.stage, page, v.stage.len() as int),
        ..v
    })
    &&& forall|key: PageKey| #[trigger]
        exact_now.contains_key(key) <==> exact.contains_key(key) || is_from(v, page, key)
    &&& broad_now == broad.union(page_bases(pcs))
}

/// Whether `now` is `v` after the first `n` of some RAM pages were drained in
/// turn, and `dropped` how many entries lay on them.
pub open spec fn pages_drained(
    v: JitView,
    now: JitView,
    written: Seq<u64>,
    n: int,
    exact: Map<PageKey, ()>,
    broad: Set<u64>,
    dropped: int,
) -> bool
    decreases n,
{
    if n <= 0 {
        &&& now == v
        &&& exact == Map::<PageKey, ()>::empty()
        &&& broad == Set::<u64>::empty()
        &&& dropped == 0
    } else {
        exists|mid: JitView, pcs: Seq<u64>, e: Map<PageKey, ()>, b: Set<u64>|
            {
                &&& #[trigger] page_drained(mid, now, written[n - 1], pcs, e, exact, b, broad)
                &&& pages_drained(v, mid, written, n - 1, e, b, dropped - pcs.len())
            }
    }
}

proof fn lemma_drained_next(
    v: JitView,
    mid: JitView,
    now: JitView,
    written: Seq<u64>,
    n: int,
    pcs: Seq<u64>,
    e: Map<PageKey, ()>,
    exact: Map<PageKey, ()>,
    b: Set<u64>,
    broad: Set<u64>,
    dropped: int,
)
    requires
        0 <= n,
        pages_drained(v, mid, written, n, e, b, dropped),
        page_drained(mid, now, written[n], pcs, e, exact, b, broad),
    ensures
        pages_drained(v, now, written, n + 1, exact, broad, dropped + pcs.len()),
{
    assert(page_drained(mid, now, written[(n + 1) - 1], pcs, e, exact, b, broad));
    assert(pages_drained(v, mid, written, (n + 1) - 1, e, b, (dropped + pcs.len()) - pcs.len()));
}

/// Whether `now` is `v` after everything that was compiled from some RAM pages
/// was dropped.
pub open spec fn drained(v: JitView, now: JitView, written: Seq<u64>, dropped: int) -> bool {
    exists|mid: JitView, exact: Map<PageKey, ()>, broad: Set<u64>|
        {
            &&& #[trigger] pages_drained(
                v,
                mid,
                written,
                written.len() as int,
                exact,
                broad,
                dropped,
            )
            &&& if exact =~= Map::<PageKey, ()>::empty() && broad =~= Set::<u64>::empty() {
                now == mid
            } else {
                mid.invalidated(now, exact, broad)
            }
        }
}

impl JitState {
    /// Drop what was compiled from a RAM page that was written, and collect the
    /// pages on which discovery has to start again.
    fn drop_written_page(
        &mut self,
        page: u64,
        exact: &mut PageMap<()>,
        broad: &mut HashSet<u64>,
    ) -> (pcs: Vec<u64>)
        requires
            old(self).wf(),
        ensures
            final(self).wf(),
            page_drained(
                old(self)@,
                final(self)@,
                page,
                pcs@,
                old(exact)@,
                final(exact)@,
                old(broad)@,
                final(broad)@,
            ),
            final(self)@.code.cache == old(self)@.code.cache.remove_keys(pcs@.to_set()),
            old(broad)@.finite() ==> final(broad)@.finite(),
    {
        let ghost was = self@;
        let keys: Vec<PageKey> = self.tracked_page_keys_for_physical(page);
        let mut i: usize = 0;
        while i < keys.len()
            invariant
                i <= keys@.len(),
                forall|key: PageKey| #[trigger]
                    exact@.contains_key(key) <==> old(exact)@.contains_key(key) || exists|k: int|
                        0 <= k < i && #[trigger] keys@[k] == key,
            decreases keys@.len() - i,
        {
            exact.insert(keys[i], ());
            i = i + 1;
        }
        assert forall|key: PageKey| #[trigger] exact@.contains_key(key) <==> old(
            exact,
        )@.contains_key(key) || is_from(was, page, key) by {
            assert(keys@.contains(key) <==> is_from(was, page, key));
        }
        self.drop_staged(page);
        let pcs: Vec<u64> = self.code.drop_page(page);
        self.lines.clear_lines(pcs.as_slice());
        let mut i: usize = 0;
        while i < pcs.len()
            invariant
                i <= pcs@.len(),
                old(broad)@.finite() ==> broad@.finite(),
                forall|p: u64| #[trigger]
                    broad@.contains(p) <==> old(broad)@.contains(p) || exists|k: int|
                        0 <= k < i && page_base(#[trigger] pcs@[k]) == p,
            decreases pcs@.len() - i,
        {
            broad.insert(page_of(pcs[i]));
            i = i + 1;
        }
        proof {
            assert(broad@ =~= old(broad)@.union(page_bases(pcs@)));
            assert forall|x: u64|
                (#[trigger] slot_in(self@.code.cache, x)) is Some implies self@.lines.filter[
            crate::jit::dispatch::line_of(x)] by {
                assert(slot_in(self@.code.cache, x) == slot_in(was.code.cache, x));
            }
        }
        pcs
    }

    /// Give up the staged blocks that come from a RAM page.
    fn drop_staged(&mut self, page: u64)
        requires
            old(self).wf(),
        ensures
            final(self).wf(),
            final(self)@ == (JitView {
                stage: stage_without(old(self)@.stage, page, old(self)@.stage.len() as int),
                coverage: coverage_without(
                    old(self)@.coverage,
                    old(self)@.stage,
                    page,
                    old(self)@.stage.len() as int,
                ),
                ..old(self)@
            }),
    {
        let ghost was = self@;
        let mut waiting: Vec<StagedBlock> = Vec::new();
        core::mem::swap(&mut waiting, &mut self.confirmed_stage);
        let ghost all = waiting@;
        let ghost views = staged(all);
        assert(views == was.stage);
        let mut i: usize = 0;
        let mut kept: Vec<StagedBlock> = Vec::new();
        assert(staged(kept@) =~= Seq::empty());
        let n: usize = waiting.len();
        while i < n
            invariant
                i <= n,
                n == all.len(),
                waiting@ == all.subrange(i as int, n as int),
                views == staged(all),
                views == was.stage,
                self.wf(),
                staged(kept@) == stage_without(views, page, i as int),
                self@ == (JitView {
                    stage: Seq::empty(),
                    coverage: coverage_without(was.coverage, views, page, i as int),
                    ..was
                }),
            decreases n - i,
        {
            let block: StagedBlock = waiting.remove(0);
            proof {
                assert(block == all[i as int]);
                assert(views[i as int] == block@);
                assert(waiting@ =~= all.subrange(i + 1, n as int));
            }
            if comes_from(&block.pending, page) {
                self.remove_confirmed_coverage(&block.pending);
            } else {
                let ghost before = kept@;
                kept.push(block);
                assert(staged(kept@) =~= staged(before).push(block@));
            }
            i = i + 1;
        }
        self.confirmed_stage = kept;
    }
}

/// Whether an entry goes because some RAM pages were written: its code lies on
/// one of them, or it runs in the module of a page that was compiled from one.
pub open spec fn goes_with(v: JitView, written: Seq<u64>, pc: u64) -> bool {
    exists|k: int|
        0 <= k < written.len() && (backs_in(
            v.code.cache,
            v.code.regions,
            #[trigger] written[k],
            pc,
        ) || exists|key: PageKey| #[trigger]
            is_from(v, written[k], key) && v.code.modules.contains_key(key)
                && v.code.modules[key].active_owner() is Some
                && v.code.modules[key].active_owner() == v.code.owner_at(pc))
}

/// The marks after some pages were unmarked in turn.
pub open spec fn unmarked(marked: Seq<bool>, pages: Seq<u64>, n: int) -> Seq<bool>
    decreases n,
{
    if n <= 0 {
        marked
    } else {
        let before = unmarked(marked, pages, n - 1);
        if pages[n - 1] < before.len() {
            before.update(pages[n - 1] as int, false)
        } else {
            before
        }
    }
}

proof fn lemma_unmarked(marked: Seq<bool>, pages: Seq<u64>, n: int)
    requires
        0 <= n <= pages.len(),
    ensures
        unmarked(marked, pages, n).len() == marked.len(),
    decreases n,
{
    if n > 0 {
        lemma_unmarked(marked, pages, n - 1);
    }
}

impl JitState {
    /// Per-page invalidation: drop only what was compiled from RAM pages that
    /// were written (self-modifying code / recycled pages), and unmark the
    /// pages. Returns how many entries lay on them.
    pub fn drain_written(&mut self, ram: &mut JitPageState) -> (dropped: usize)
        requires
            old(self).wf(),
            old(ram).wf(),
        ensures
            final(self).wf(),
            final(ram).wf(),
            final(ram)@ == (JitPages {
                dirty: Seq::empty(),
                marked: unmarked(
                    old(ram)@.marked,
                    old(ram)@.dirty,
                    old(ram)@.dirty.len() as int,
                ),
                ..old(ram)@
            }),
            exists|n: int|
                #[trigger] drained(old(self)@, final(self)@, old(ram)@.dirty, n) && dropped == (
                if n <= usize::MAX {
                    n
                } else {
                    usize::MAX as int
                }),
            forall|k: int, pc: u64|
                0 <= k < old(ram)@.dirty.len() ==> !(#[trigger] backs_in(
                    final(self)@.code.cache,
                    final(self)@.code.regions,
                    old(ram)@.dirty[k],
                    pc,
                )),
            forall|pc: u64| #[trigger]
                final(self)@.code.cache.contains_key(pc) ==> old(self)@.code.cache.contains_key(pc)
                    && final(self)@.code.cache[pc] == old(self)@.code.cache[pc],
            forall|pc: u64|
                old(self)@.code.cache.contains_key(pc) && !goes_with(
                    old(self)@,
                    old(ram)@.dirty,
                    pc,
                ) ==> #[trigger] final(self)@.code.cache.contains_key(pc),
            forall|k: int, key: PageKey|
                0 <= k < old(ram)@.dirty.len() ==> !(#[trigger] is_from(
                    final(self)@,
                    old(ram)@.dirty[k],
                    key,
                )),
            forall|i: int, k: int|
                0 <= i < final(self)@.stage.len() && 0 <= k < old(ram)@.dirty.len()
                    ==> !block_from(
                    (#[trigger] final(self)@.stage[i]).pending,
                    #[trigger] old(ram)@.dirty[k],
                ),
            final(self)@.heat == old(self)@.heat,
            final(self)@.succ == old(self)@.succ,
            final(self)@.bails == old(self)@.bails,
            final(self)@.evictions == old(self)@.evictions,
    {
        let ghost was = self@;
        let ghost marks = ram@.marked;
        let written: Vec<u64> = ram.take_dirty();
        let mut exact: PageMap<()> = PageMap::new();
        let mut broad: HashSet<u64> = HashSet::new();
        let mut dropped: usize = 0;
        let ghost mut n: int = 0;
        let mut i: usize = 0;
        proof {
            assert(shrunk(was.code, was.code));
            assert(exact@ =~= Map::<PageKey, ()>::empty());
            assert(broad@ =~= Set::<u64>::empty());
            assert(pages_drained(was, self@, written@, 0, exact@, broad@, n));
        }
        while i < written.len()
            invariant
                i <= written@.len(),
                pages_drained(was, self@, written@, i as int, exact@, broad@, n),
                broad@.finite(),
                n >= 0,
                dropped == (if n <= usize::MAX {
                    n
                } else {
                    usize::MAX as int
                }),
                written@ == old(ram)@.dirty,
                marks == old(ram)@.marked,
                self.wf(),
                ram.wf(),
                was.code.wf(),
                ram@ == (JitPages {
                    dirty: Seq::empty(),
                    marked: unmarked(marks, written@, i as int),
                    ..old(ram)@
                }),
                shrunk(was.code, self@.code),
                self@.pages == was.pages,
                self@.heat == was.heat,
                self@.succ == was.succ,
                self@.bails == was.bails,
                self@.evictions == was.evictions,
                forall|k: int, pc: u64|
                    0 <= k < i ==> !(#[trigger] backs_in(
                        self@.code.cache,
                        self@.code.regions,
                        written@[k],
                        pc,
                    )),
                forall|pc: u64|
                    was.code.cache.contains_key(pc) && !goes_with(was, written@, pc) ==> #[trigger]
                    self@.code.cache.contains_key(pc),
                forall|k: int, key: PageKey|
                    0 <= k < i && #[trigger] is_from(self@, written@[k], key)
                        ==> exact@.contains_key(key),
                forall|key: PageKey| #[trigger]
                    exact@.contains_key(key) ==> exists|k: int|
                        0 <= k < written@.len() && is_from(was, #[trigger] written@[k], key),
                forall|a: int, k: int|
                    0 <= a < self@.stage.len() && 0 <= k < i ==> !block_from(
                        (#[trigger] self@.stage[a]).pending,
                        #[trigger] written@[k],
                    ),
            decreases written@.len() - i,
        {
            let ghost now = self@;
            let page: u64 = written[i];
            let ghost exact_before = exact@;
            let ghost broad_before = broad@;
            let pcs: Vec<u64> = self.drop_written_page(page, &mut exact, &mut broad);
            dropped = dropped.saturating_add(pcs.len());
            ram.unmark_page(page);
            proof {
                lemma_drained_next(
                    was,
                    now,
                    self@,
                    written@,
                    i as int,
                    pcs@,
                    exact_before,
                    exact@,
                    broad_before,
                    broad@,
                    n,
                );
                n = n + pcs@.len();
                lemma_dropped_all_shrinks(now.code, pcs@, pcs@.len() as int);
                lemma_shrunk_twice(was.code, now.code, self@.code);
                assert forall|k: int, pc: u64| 0 <= k < i + 1 implies !(#[trigger] backs_in(
                    self@.code.cache,
                    self@.code.regions,
                    written@[k],
                    pc,
                )) by {
                    lemma_shrunk_backs(now.code, self@.code, written@[k], pc);
                    if k == i && backs_in(
                        self@.code.cache,
                        self@.code.regions,
                        written@[k],
                        pc,
                    ) {
                        assert(pcs@.contains(pc));
                        assert(pcs@.to_set().contains(pc));
                    }
                }
                assert forall|pc: u64|
                    was.code.cache.contains_key(pc) && !goes_with(was, written@, pc) implies
                #[trigger] self@.code.cache.contains_key(pc) by {
                    assert(now.code.cache.contains_key(pc));
                    if pcs@.to_set().contains(pc) {
                        assert(pcs@.contains(pc));
                        assert(backs_in(now.code.cache, now.code.regions, page, pc));
                        lemma_shrunk_backs(was.code, now.code, page, pc);
                        assert(backs_in(was.code.cache, was.code.regions, written@[i as int], pc));
                        assert(goes_with(was, written@, pc));
                    }
                }
                assert forall|k: int, key: PageKey|
                    0 <= k < i + 1 && #[trigger] is_from(self@, written@[k], key) implies exact@.contains_key(
                    key,
                ) by {
                    assert(is_from(now, written@[k], key));
                    if k == i {
                        assert(is_from(now, page, key));
                    } else {
                        assert(exact_before.contains_key(key));
                    }
                }
                assert forall|key: PageKey| #[trigger] exact@.contains_key(key) implies exists|
                    k: int,
                |
                    0 <= k < written@.len() && is_from(was, #[trigger] written@[k], key) by {
                    if !exact_before.contains_key(key) {
                        assert(is_from(now, page, key));
                        assert(is_from(was, written@[i as int], key));
                    }
                }
                lemma_stage_without(now.stage, page, now.stage.len() as int);
                assert forall|a: int, k: int|
                    0 <= a < self@.stage.len() && 0 <= k < i + 1 implies !block_from(
                    (#[trigger] self@.stage[a]).pending,
                    #[trigger] written@[k],
                ) by {
                    let b = choose|b: int|
                        0 <= b < now.stage.len() && #[trigger] now.stage[b] == self@.stage[a];
                    assert(now.stage[b] == self@.stage[a]);
                }
            }
            i = i + 1;
        }
        let ghost mid = self@;
        if exact.len() > 0 || broad.len() > 0 {
            self.invalidate_superblock_state(&exact, &broad);
            proof {
                assert forall|k: int, pc: u64| 0 <= k < written@.len() implies !(
                #[trigger] backs_in(
                    self@.code.cache,
                    self@.code.regions,
                    written@[k],
                    pc,
                )) by {
                    lemma_shrunk_backs(mid.code, self@.code, written@[k], pc);
                }
                assert forall|pc: u64|
                    was.code.cache.contains_key(pc) && !goes_with(was, written@, pc) implies
                #[trigger] self@.code.cache.contains_key(pc) by {
                    assert(mid.code.cache.contains_key(pc));
                    if mid.code.owner_at(pc) is Some && mid.owners_for(exact@).contains(
                        mid.code.owner_at(pc)->0,
                    ) {
                        let owner = mid.code.owner_at(pc)->0;
                        let key = choose|key: PageKey| #[trigger]
                            exact@.contains_key(key) && mid.code.modules.contains_key(key)
                                && mid.code.modules[key].active_owner() == Some(owner);
                        let k = choose|k: int|
                            0 <= k < written@.len() && is_from(was, #[trigger] written@[k], key);
                        assert(was.code.owner_at(pc) == Some(owner));
                        assert(is_from(was, written@[k], key));
                        assert(goes_with(was, written@, pc));
                    }
                }
                assert forall|k: int, key: PageKey| 0 <= k < written@.len() implies !(
                #[trigger] is_from(self@, written@[k], key)) by {
                    if is_from(self@, written@[k], key) {
                        assert(is_from(mid, written@[k], key));
                        assert(exact@.contains_key(key));
                    }
                }
                assert(!(exact@ =~= Map::<PageKey, ()>::empty() && broad@ =~= Set::<u64>::empty()))
                    by {
                    if exact@ =~= Map::<PageKey, ()>::empty() {
                        assert(exact@.dom() =~= Set::empty());
                    }
                }
            }
        } else {
            proof {
                assert(exact@.dom() =~= Set::empty());
                assert forall|key: PageKey| !exact@.contains_key(key) by {
                    assert(!exact@.dom().contains(key));
                }
                assert(exact@ =~= Map::<PageKey, ()>::empty());
                broad@.lemma_len0_is_empty();
            }
        }
        assert(drained(was, self@, written@, n));
        dropped
    }
}

proof fn lemma_stage_without(stage: Seq<StagedView>, page: u64, n: int)
    requires
        0 <= n <= stage.len(),
    ensures
        forall|a: int|
            0 <= a < stage_without(stage, page, n).len() ==> {
                &&& !block_from((#[trigger] stage_without(stage, page, n)[a]).pending, page)
                &&& exists|b: int|
                    0 <= b < n && #[trigger] stage[b] == stage_without(stage, page, n)[a]
            },
    decreases n,
{
    if n > 0 {
        lemma_stage_without(stage, page, n - 1);
        let before = stage_without(stage, page, n - 1);
        let now = stage_without(stage, page, n);
        assert forall|a: int| 0 <= a < now.len() implies {
            &&& !block_from((#[trigger] now[a]).pending, page)
            &&& exists|b: int| 0 <= b < n && #[trigger] stage[b] == now[a]
        } by {
            if a < before.len() {
                assert(now[a] == before[a]);
                let b = choose|b: int| 0 <= b < n - 1 && #[trigger] stage[b] == before[a];
                assert(stage[b] == now[a]);
            } else {
                assert(stage[n - 1] == now[a]);
            }
        }
    }
}

// ---- address spaces ------------------------------------------------------

impl JitState {
    /// Note a change of address spaces. Compiled blocks survive it: every
    /// dispatch verifies the mapping of its code anew. Discovery is keyed by
    /// address space and survives too, until there are too many records.
    pub fn note_space_switch(&mut self, flush_gen: u64)
        requires
            old(self).wf(),
        ensures
            final(self).wf(),
            final(self)@ == if flush_gen == old(self)@.flush_gen {
                old(self)@
            } else {
                old(self)@.switched(flush_gen)
            },
    {
        if flush_gen == self.flush_gen {
            return;
        }
        let ghost was = self@;
        self.flush_gen = flush_gen;
        self.pages.cap_spaces();
        let ghost mid = self@;
        if self.pages.cap_hot_spaces() {
            self.drop_attempted();
        }
        assert(self@ =~= was.switched(flush_gen));
    }

    /// Forget which pages could not be compiled as modules.
    fn drop_attempted(&mut self)
        requires
            old(self).wf(),
        ensures
            final(self).wf(),
            final(self)@ == (JitView {
                code: CodeView {
                    modules: old(self)@.code.modules.remove_keys(
                        attempted(old(self)@.code.modules),
                    ),
                    ..old(self)@.code
                },
                ..old(self)@
            }),
    {
        let ghost was = self@;
        let keys: Vec<PageKey> = self.code.page_modules.keys();
        let mut i: usize = 0;
        while i < keys.len()
            invariant
                i <= keys@.len(),
                self.wf(),
                self@ == (JitView {
                    code: CodeView { modules: self@.code.modules, ..was.code },
                    ..was
                }),
                forall|key: PageKey| #[trigger]
                    self@.code.modules.contains_key(key) <==> was.code.modules.contains_key(key)
                        && !(attempted(was.code.modules).contains(key) && exists|k: int|
                        0 <= k < i && #[trigger] keys@[k] == key),
                forall|key: PageKey| #[trigger]
                    self@.code.modules.contains_key(key) ==> self@.code.modules[key]
                        == was.code.modules[key],
                forall|key: PageKey| #[trigger]
                    keys@.contains(key) <==> was.code.modules.contains_key(key),
                keys@.no_duplicates(),
            decreases keys@.len() - i,
        {
            let ghost before = self@.code.modules;
            let key: PageKey = keys[i];
            assert(keys@.contains(key));
            assert(before.contains_key(key)) by {
                if exists|k: int| 0 <= k < i && #[trigger] keys@[k] == key {
                    let k = choose|k: int| 0 <= k < i && #[trigger] keys@[k] == key;
                    assert(keys@[k] == keys@[i as int]);
                }
            }
            let drop_it: bool = match self.code.page_modules.get(&key) {
                Some(PageModuleState::Attempted(_)) => true,
                _ => false,
            };
            if drop_it {
                self.code.page_modules.remove(&key);
                assert(self@.code.modules =~= before.remove(key));
            }
            assert(drop_it == attempted(was.code.modules).contains(key));
            assert(keys@[i as int] == key);
            i = i + 1;
        }
        proof {
            assert forall|key: PageKey| attempted(was.code.modules).contains(key) implies exists|
                k: int,
            |
                0 <= k < keys@.len() && #[trigger] keys@[k] == key by {
                assert(keys@.contains(key));
            }
            assert(self@.code.modules =~= was.code.modules.remove_keys(
                attempted(was.code.modules),
            ));
        }
    }
}

/// The pages that could not be compiled as modules.
pub open spec fn attempted(modules: Map<PageKey, ModuleView>) -> Set<PageKey> {
    Set::new(|key: PageKey| modules.contains_key(key) && modules[key] is Attempted)
}

impl JitView {
    /// The state after a change of address spaces.
    pub open spec fn switched(self, flush_gen: u64) -> JitView {
        let many = self.pages.entries.dom().len() > SB_SPACE_CAP;
        let many_hot = self.pages.hot.dom().len() > SB_SPACE_CAP;
        JitView {
            flush_gen,
            pages: DiscoveryView {
                entries: if many {
                    Map::empty()
                } else {
                    self.pages.entries
                },
                claims: if many {
                    ClaimsView { superblocked: Set::empty(), pending: Map::empty() }
                } else {
                    self.pages.claims
                },
                builds: if many {
                    Map::empty()
                } else {
                    self.pages.builds
                },
                hot: if many_hot {
                    Map::empty()
                } else {
                    self.pages.hot
                },
                ..self.pages
            },
            code: if many_hot {
                CodeView {
                    modules: self.code.modules.remove_keys(attempted(self.code.modules)),
                    ..self.code
                }
            } else {
                self.code
            },
            ..self
        }
    }
}

/// Compiled code survives a change of address spaces.
pub proof fn law_code_survives_space_switches(v: JitView, flush_gen: u64)
    ensures
        v.switched(flush_gen).code.cache == v.code.cache,
        v.switched(flush_gen).code.slot_owner == v.code.slot_owner,
{
}

} // verus!
