//! Maps that the compiled-code bookkeeping is built on.

use vstd::prelude::*;
use vstd::std_specs::iter::IteratorSpec;
use std::collections::{HashMap, HashSet};

verus! {

broadcast use vstd::std_specs::hash::group_hash_axioms;

// ---- lists by key --------------------------------------------------------

/// What an [`Index`] can list.
pub trait Member: Copy {
    fn same(self, other: Self) -> (r: bool)
        ensures
            r == (self == other),
    ;
}

impl Member for u64 {
    fn same(self, other: u64) -> (r: bool) {
        self == other
    }
}

impl Member for i32 {
    fn same(self, other: i32) -> (r: bool) {
        self == other
    }
}

/// Items listed under keys. An item is listed once under a key, and a key
/// without items is not kept.
pub struct Index<T> {
    lists: HashMap<u64, Vec<T>>,
}

/// The items that are not `item`, in their order.
pub open spec fn others<T>(list: Seq<T>, item: T) -> Seq<T>
    decreases list.len(),
{
    if list.len() == 0 {
        list
    } else if list.last() == item {
        others(list.drop_last(), item)
    } else {
        others(list.drop_last(), item).push(list.last())
    }
}

/// Taking an item off a list leaves every other item, and nothing twice that
/// was not there twice.
pub proof fn lemma_others<T>(list: Seq<T>, item: T)
    ensures
        forall|x: T| #[trigger] others(list, item).contains(x) <==> list.contains(x) && x != item,
        list.no_duplicates() ==> others(list, item).no_duplicates(),
        !list.contains(item) ==> others(list, item) == list,
    decreases list.len(),
{
    if list.len() > 0 {
        let front = list.drop_last();
        let kept = others(front, item);
        let now = others(list, item);
        lemma_others(front, item);
        assert forall|x: T| #[trigger] now.contains(x) <==> list.contains(x) && x != item by {
            if front.contains(x) {
                let i = choose|i: int| 0 <= i < front.len() && front[i] == x;
                assert(list[i] == x);
            }
            if list.contains(x) && x != list.last() {
                let i = choose|i: int| 0 <= i < list.len() && list[i] == x;
                assert(front[i] == x);
            }
            if list.last() != item {
                assert(now[kept.len() as int] == list.last());
                if kept.contains(x) {
                    let i = choose|i: int| 0 <= i < kept.len() && kept[i] == x;
                    assert(now[i] == x);
                }
                if now.contains(x) && x != list.last() {
                    let i = choose|i: int| 0 <= i < now.len() && now[i] == x;
                    assert(kept[i] == x);
                }
            }
            assert(list[list.len() - 1] == list.last());
        }
        if list.no_duplicates() {
            assert(front.no_duplicates());
            if list.last() != item {
                assert forall|i: int| 0 <= i < kept.len() implies kept[i] != list.last() by {
                    assert(kept.contains(kept[i]));
                    let j = choose|j: int| 0 <= j < front.len() && front[j] == kept[i];
                    assert(list[j] == kept[i]);
                }
            }
        }
        if !list.contains(item) {
            assert(list[list.len() - 1] != item);
            assert(!front.contains(item)) by {
                if front.contains(item) {
                    let i = choose|i: int| 0 <= i < front.len() && front[i] == item;
                    assert(list[i] == item);
                }
            }
            assert(now =~= list);
        }
    }
}

impl<T: Member> Index<T> {
    /// The list of every key that has one.
    pub closed spec fn lists(&self) -> Map<u64, Seq<T>> {
        self.lists@.map_values(|list: Vec<T>| list@)
    }

    /// Lists are not empty and hold nothing twice.
    pub open spec fn wf(&self) -> bool {
        forall|k: u64| #[trigger]
            self.lists().contains_key(k) ==> self.lists()[k].len() > 0
                && self.lists()[k].no_duplicates()
    }

    /// Whether `item` is listed under `key`.
    pub open spec fn has(&self, key: u64, item: T) -> bool {
        self.lists().contains_key(key) && self.lists()[key].contains(item)
    }

    pub fn new() -> (index: Index<T>)
        ensures
            index.wf(),
            index.lists() == Map::<u64, Seq<T>>::empty(),
    {
        let index = Index { lists: HashMap::new() };
        assert(index.lists() =~= Map::<u64, Seq<T>>::empty());
        index
    }

    pub fn clear(&mut self)
        ensures
            final(self).wf(),
            final(self).lists() == Map::<u64, Seq<T>>::empty(),
    {
        self.lists.clear();
        assert(self.lists() =~= Map::<u64, Seq<T>>::empty());
    }

    /// Whether anything is listed under `key`.
    pub fn contains_key(&self, key: &u64) -> (r: bool)
        ensures
            r == self.lists().contains_key(*key),
    {
        self.lists.contains_key(key)
    }

    /// How many keys have a list.
    pub fn len(&self) -> (n: usize)
        ensures
            n == self.lists().dom().len(),
    {
        assert(self.lists().dom() =~= self.lists@.dom());
        self.lists.len()
    }

    /// The list under `key`.
    pub fn get(&self, key: &u64) -> (list: Option<&Vec<T>>)
        ensures
            match list {
                Some(list) => self.lists().contains_key(*key) && list@ == self.lists()[*key],
                None => !self.lists().contains_key(*key),
            },
    {
        self.lists.get(key)
    }

    /// Replace the list under `key`.
    pub fn insert(&mut self, key: u64, list: Vec<T>)
        ensures
            final(self).lists() == old(self).lists().insert(key, list@),
    {
        self.lists.insert(key, list);
        assert(self.lists() =~= old(self).lists().insert(key, list@));
    }

    /// A copy of the list under `key`, empty where there is none.
    pub fn list_of(&self, key: u64) -> (list: Vec<T>)
        ensures
            list@ == if self.lists().contains_key(key) {
                self.lists()[key]
            } else {
                Seq::empty()
            },
    {
        let mut copy: Vec<T> = Vec::new();
        match self.lists.get(&key) {
            None => {},
            Some(list) => {
                let mut i: usize = 0;
                while i < list.len()
                    invariant
                        i <= list@.len(),
                        copy@ == list@.subrange(0, i as int),
                    decreases list@.len() - i,
                {
                    copy.push(list[i]);
                    i = i + 1;
                    assert(copy@ =~= list@.subrange(0, i as int));
                }
                assert(copy@ =~= list@);
            },
        }
        copy
    }

    /// List `item` under `key`, unless it is.
    pub fn enter(&mut self, key: u64, item: T)
        requires
            old(self).wf(),
        ensures
            final(self).wf(),
            forall|k: u64, x: T| #[trigger]
                final(self).has(k, x) <==> old(self).has(k, x) || (k == key && x == item),
            final(self).lists() == if old(self).has(key, item) {
                old(self).lists()
            } else {
                old(self).lists().insert(
                    key,
                    if old(self).lists().contains_key(key) {
                        old(self).lists()[key].push(item)
                    } else {
                        seq![item]
                    },
                )
            },
    {
        let ghost before = self.lists();
        match self.lists.remove(&key) {
            None => {
                let mut list: Vec<T> = Vec::new();
                list.push(item);
                assert(list@ =~= seq![item]);
                self.lists.insert(key, list);
                assert(self.lists() =~= before.insert(key, seq![item]));
                assert(self.lists()[key][0] == item);
            },
            Some(list) => {
                let mut list = list;
                assert(before[key] == list@);
                if !listed(list.as_slice(), item) {
                    list.push(item);
                    assert(list@ =~= before[key].push(item));
                    self.lists.insert(key, list);
                    assert(self.lists() =~= before.insert(key, before[key].push(item)));
                    proof {
                        let now = before[key].push(item);
                        assert(now[before[key].len() as int] == item);
                        assert forall|x: T| now.contains(x) <==> before[key].contains(x) || x
                            == item by {
                            if before[key].contains(x) {
                                let i = choose|i: int|
                                    0 <= i < before[key].len() && before[key][i] == x;
                                assert(now[i] == x);
                            }
                            if now.contains(x) && x != item {
                                let i = choose|i: int| 0 <= i < now.len() && now[i] == x;
                                assert(before[key][i] == x);
                            }
                        }
                    }
                } else {
                    self.lists.insert(key, list);
                    assert(self.lists() =~= before);
                }
            },
        }
    }

    /// Take `item` off the list under `key`.
    pub fn strike(&mut self, key: u64, item: T)
        requires
            old(self).wf(),
        ensures
            final(self).wf(),
            forall|k: u64, x: T| #[trigger]
                final(self).has(k, x) <==> old(self).has(k, x) && !(k == key && x == item),
            final(self).lists() == if !old(self).lists().contains_key(key) {
                old(self).lists()
            } else if others(old(self).lists()[key], item).len() == 0 {
                old(self).lists().remove(key)
            } else {
                old(self).lists().insert(key, others(old(self).lists()[key], item))
            },
    {
        let ghost before = self.lists();
        match self.lists.remove(&key) {
            None => {
                assert(self.lists() =~= before);
            },
            Some(list) => {
                assert(before[key] == list@);
                proof {
                    lemma_others(before[key], item);
                }
                let kept: Vec<T> = without(list.as_slice(), item);
                if kept.len() > 0 {
                    self.lists.insert(key, kept);
                    assert(self.lists() =~= before.insert(key, others(before[key], item)));
                } else {
                    assert(self.lists() =~= before.remove(key));
                    assert(others(before[key], item) =~= Seq::empty());
                    assert forall|x: T| before[key].contains(x) implies x == item by {
                        assert(!others(before[key], item).contains(x));
                    }
                }
            },
        }
    }

    /// Drop the list under `key`.
    pub fn remove(&mut self, key: &u64) -> (list: Option<Vec<T>>)
        ensures
            final(self).lists() == old(self).lists().remove(*key),
            match list {
                Some(list) => old(self).lists().contains_key(*key) && list@ == old(
                    self,
                ).lists()[*key],
                None => !old(self).lists().contains_key(*key),
            },
    {
        let list = self.lists.remove(key);
        assert(self.lists() =~= old(self).lists().remove(*key));
        list
    }
}

/// Whether a list holds an item.
pub fn listed<T: Member>(list: &[T], item: T) -> (r: bool)
    ensures
        r == list@.contains(item),
{
    let mut i: usize = 0;
    while i < list.len()
        invariant
            i <= list@.len(),
            forall|k: int| 0 <= k < i ==> list@[k] != item,
        decreases list@.len() - i,
    {
        if list[i].same(item) {
            assert(list@[i as int] == item);
            return true;
        }
        i = i + 1;
    }
    false
}

/// The items that are not `item`.
pub fn without<T: Member>(list: &[T], item: T) -> (kept: Vec<T>)
    ensures
        kept@ == others(list@, item),
{
    let mut kept: Vec<T> = Vec::new();
    let mut i: usize = 0;
    assert(list@.subrange(0, 0) =~= Seq::empty());
    while i < list.len()
        invariant
            i <= list@.len(),
            kept@ == others(list@.subrange(0, i as int), item),
        decreases list@.len() - i,
    {
        proof {
            let now = list@.subrange(0, i + 1);
            assert(now.drop_last() =~= list@.subrange(0, i as int));
        }
        if !list[i].same(item) {
            kept.push(list[i]);
        }
        i = i + 1;
    }
    assert(list@.subrange(0, i as int) =~= list@);
    kept
}

// ---- sorted lists --------------------------------------------------------

/// Each item is smaller than the next.
pub open spec fn ascending(list: Seq<u64>) -> bool {
    forall|i: int, j: int| 0 <= i < j < list.len() ==> #[trigger] list[i] < #[trigger] list[j]
}

/// An ascending list with one item more.
pub open spec fn with_item(list: Seq<u64>, item: u64) -> Seq<u64>
    decreases list.len(),
{
    if list.len() == 0 {
        seq![item]
    } else if list[0] < item {
        seq![list[0]] + with_item(list.drop_first(), item)
    } else if list[0] == item {
        list
    } else {
        seq![item] + list
    }
}

/// An ascending list with one item more is ascending and holds just that more.
pub proof fn lemma_with_item(list: Seq<u64>, item: u64)
    requires
        ascending(list),
    ensures
        ascending(with_item(list, item)),
        forall|x: u64| #[trigger] with_item(list, item).contains(x) <==> list.contains(x) || x == item,
    decreases list.len(),
{
    let now = with_item(list, item);
    if list.len() == 0 {
        assert(now[0] == item);
    } else {
        let rest = list.drop_first();
        assert(ascending(rest)) by {
            assert forall|i: int, j: int| 0 <= i < j < rest.len() implies #[trigger] rest[i]
                < #[trigger] rest[j] by {
                assert(list[i + 1] < list[j + 1]);
            }
        }
        lemma_with_item(rest, item);
        assert forall|x: u64| list.contains(x) <==> x == list[0] || rest.contains(x) by {
            if list.contains(x) && x != list[0] {
                let i = choose|i: int| 0 <= i < list.len() && list[i] == x;
                assert(rest[i - 1] == x);
            }
            if rest.contains(x) {
                let i = choose|i: int| 0 <= i < rest.len() && rest[i] == x;
                assert(list[i + 1] == x);
            }
        }
        if list[0] < item {
            let more = with_item(rest, item);
            assert(now =~= seq![list[0]] + more);
            assert forall|x: u64| now.contains(x) <==> x == list[0] || more.contains(x) by {
                assert(now[0] == list[0]);
                if now.contains(x) && x != list[0] {
                    let i = choose|i: int| 0 <= i < now.len() && now[i] == x;
                    assert(more[i - 1] == x);
                }
                if more.contains(x) {
                    let i = choose|i: int| 0 <= i < more.len() && more[i] == x;
                    assert(now[i + 1] == x);
                }
            }
            assert forall|i: int, j: int| 0 <= i < j < now.len() implies #[trigger] now[i]
                < #[trigger] now[j] by {
                assert(now[j] == more[j - 1]);
                if i == 0 {
                    assert(more.contains(more[j - 1]));
                    let x = more[j - 1];
                    if x != item {
                        assert(rest.contains(x));
                        let k = choose|k: int| 0 <= k < rest.len() && rest[k] == x;
                        assert(list[0] < list[k + 1]);
                    }
                } else {
                    assert(now[i] == more[i - 1]);
                }
            }
        } else if list[0] > item {
            assert(now =~= seq![item] + list);
            assert forall|x: u64| now.contains(x) <==> x == item || list.contains(x) by {
                assert(now[0] == item);
                if now.contains(x) && x != item {
                    let i = choose|i: int| 0 <= i < now.len() && now[i] == x;
                    assert(list[i - 1] == x);
                }
                if list.contains(x) {
                    let i = choose|i: int| 0 <= i < list.len() && list[i] == x;
                    assert(now[i + 1] == x);
                }
            }
            assert forall|i: int, j: int| 0 <= i < j < now.len() implies #[trigger] now[i]
                < #[trigger] now[j] by {
                assert(now[j] == list[j - 1]);
                if i == 0 {
                    if j > 1 {
                        assert(list[0] < list[j - 1]);
                    }
                } else {
                    assert(now[i] == list[i - 1]);
                }
            }
        } else {
            assert(list[0] == item);
            assert(list.contains(item));
        }
    }
}

/// Two ascending lists of the same items are the same list.
pub proof fn lemma_ascending_unique(a: Seq<u64>, b: Seq<u64>)
    requires
        ascending(a),
        ascending(b),
        forall|x: u64| #[trigger] a.contains(x) <==> b.contains(x),
    ensures
        a == b,
    decreases a.len(),
{
    if a.len() == 0 {
        if b.len() > 0 {
            assert(b.contains(b[0]));
            assert(a.contains(b[0]));
        }
        assert(a =~= b);
    } else {
        assert(a.contains(a[0]));
        assert(b.contains(a[0]));
        assert(b.contains(b[0]));
        assert(a.contains(b[0]));
        let i = choose|i: int| 0 <= i < b.len() && b[i] == a[0];
        let j = choose|j: int| 0 <= j < a.len() && a[j] == b[0];
        if i > 0 {
            assert(b[0] < b[i]);
            if j > 0 {
                assert(a[0] < a[j]);
            }
        }
        assert(a[0] == b[0]);
        let (c, d) = (a.drop_first(), b.drop_first());
        assert(ascending(c)) by {
            assert forall|i: int, j: int| 0 <= i < j < c.len() implies #[trigger] c[i]
                < #[trigger] c[j] by {
                assert(a[i + 1] < a[j + 1]);
            }
        }
        assert(ascending(d)) by {
            assert forall|i: int, j: int| 0 <= i < j < d.len() implies #[trigger] d[i]
                < #[trigger] d[j] by {
                assert(b[i + 1] < b[j + 1]);
            }
        }
        assert forall|x: u64| #[trigger] c.contains(x) <==> d.contains(x) by {
            if c.contains(x) {
                let i = choose|i: int| 0 <= i < c.len() && c[i] == x;
                assert(a[0] < a[i + 1]);
                assert(a.contains(x));
                let j = choose|j: int| 0 <= j < b.len() && b[j] == x;
                assert(d[j - 1] == x);
            }
            if d.contains(x) {
                let i = choose|i: int| 0 <= i < d.len() && d[i] == x;
                assert(b[0] < b[i + 1]);
                assert(b.contains(x));
                assert(a.contains(x));
                let j = choose|j: int| 0 <= j < a.len() && a[j] == x;
                assert(c[j - 1] == x);
            }
        }
        lemma_ascending_unique(c, d);
        assert(a =~= seq![a[0]] + c);
        assert(b =~= seq![b[0]] + d);
    }
}

/// Put an item in its place in an ascending list, unless it is there.
pub fn insert_sorted(list: &mut Vec<u64>, item: u64)
    requires
        ascending(old(list)@),
    ensures
        final(list)@ == with_item(old(list)@, item),
        ascending(final(list)@),
        forall|x: u64| #[trigger]
            final(list)@.contains(x) <==> old(list)@.contains(x) || x == item,
{
    let mut lo: usize = 0;
    let mut hi: usize = list.len();
    while lo < hi
        invariant
            lo <= hi <= list@.len(),
            ascending(list@),
            forall|i: int| 0 <= i < lo ==> #[trigger] list@[i] < item,
            forall|i: int| hi <= i < list@.len() ==> #[trigger] list@[i] >= item,
        decreases hi - lo,
    {
        let mid: usize = lo + (hi - lo) / 2;
        if list[mid] < item {
            assert forall|i: int| 0 <= i < mid + 1 implies #[trigger] list@[i] < item by {
                if i < mid {
                    assert(list@[i] < list@[mid as int]);
                }
            }
            lo = mid + 1;
        } else {
            assert forall|i: int| mid <= i < list@.len() implies #[trigger] list@[i] >= item by {
                if i > mid {
                    assert(list@[mid as int] < list@[i]);
                }
            }
            hi = mid;
        }
    }
    let ghost was = list@;
    if lo < list.len() && list[lo] == item {
        proof {
            assert(was[lo as int] == item);
            lemma_with_item(was, item);
            lemma_ascending_unique(was, with_item(was, item));
        }
        return;
    }
    list.insert(lo, item);
    proof {
        let now = list@;
        assert forall|i: int, j: int| 0 <= i < j < now.len() implies #[trigger] now[i]
            < #[trigger] now[j] by {
            let a = if i < lo {
                i
            } else {
                i - 1
            };
            let b = if j < lo {
                j
            } else {
                j - 1
            };
            if i == lo {
                assert(now[j] == was[b]);
                assert(was[b] >= item);
                assert(was[lo as int] != item);
                if b > lo {
                    assert(was[lo as int] < was[b]);
                }
            } else if j == lo {
                assert(now[i] == was[a]);
            } else {
                assert(now[i] == was[a] && now[j] == was[b]);
                assert(was[a] < was[b]);
            }
        }
        assert(now[lo as int] == item);
        assert forall|x: u64| #[trigger] now.contains(x) <==> was.contains(x) || x == item by {
            if was.contains(x) {
                let i = choose|i: int| 0 <= i < was.len() && was[i] == x;
                if i < lo {
                    assert(now[i] == x);
                } else {
                    assert(now[i + 1] == x);
                }
            }
            if now.contains(x) && x != item {
                let i = choose|i: int| 0 <= i < now.len() && now[i] == x;
                if i < lo {
                    assert(was[i] == x);
                } else {
                    assert(was[i - 1] == x);
                }
            }
        }
        lemma_with_item(was, item);
        lemma_ascending_unique(now, with_item(was, item));
    }
}

/// Whether a list holds exactly the items of another, each once and in order.
pub open spec fn is_sorted_set_of(now: Seq<u64>, items: Seq<u64>) -> bool {
    &&& ascending(now)
    &&& forall|x: u64| #[trigger] now.contains(x) <==> items.contains(x)
}

/// The items of a list, each once and in order.
pub fn sorted_set(items: &[u64]) -> (list: Vec<u64>)
    ensures
        is_sorted_set_of(list@, items@),
{
    let mut list: Vec<u64> = Vec::new();
    let mut i: usize = 0;
    assert(forall|x: u64| !items@.subrange(0, 0).contains(x));
    while i < items.len()
        invariant
            i <= items@.len(),
            is_sorted_set_of(list@, items@.subrange(0, i as int)),
        decreases items@.len() - i,
    {
        let ghost before = items@.subrange(0, i as int);
        let ghost after = items@.subrange(0, i + 1);
        let item: u64 = items[i];
        insert_sorted(&mut list, item);
        proof {
            assert(after =~= before.push(item));
            assert forall|x: u64| #[trigger] after.contains(x) <==> before.contains(x) || x
                == item by {
                if before.contains(x) {
                    let j = choose|j: int| 0 <= j < before.len() && before[j] == x;
                    assert(after[j] == x);
                }
                assert(after[i as int] == item);
                if after.contains(x) && x != item {
                    let j = choose|j: int| 0 <= j < after.len() && after[j] == x;
                    assert(before[j] == x);
                }
            }
        }
        i = i + 1;
    }
    assert(items@.subrange(0, i as int) =~= items@);
    list
}

// ---- maps by address space and page --------------------------------------

/// An address space and a virtual page in it.
pub type PageKey = (u64, u64);

spec fn packed(key: PageKey) -> u128 {
    (key.0 * 0x1_0000_0000_0000_0000 + key.1) as u128
}

spec fn unpacked(word: u128) -> PageKey {
    ((word / 0x1_0000_0000_0000_0000) as u64, (word % 0x1_0000_0000_0000_0000) as u64)
}

proof fn lemma_packed(key: PageKey)
    ensures
        unpacked(packed(key)) == key,
        packed(key) == key.0 * 0x1_0000_0000_0000_0000 + key.1,
{
}

proof fn lemma_unpacked(word: u128)
    ensures
        packed(unpacked(word)) == word,
{
}

fn pack(key: &PageKey) -> (word: u128)
    ensures
        word == packed(*key),
{
    key.0 as u128 * 0x1_0000_0000_0000_0000 + key.1 as u128
}

fn unpack(word: u128) -> (key: PageKey)
    ensures
        key == unpacked(word),
{
    ((word / 0x1_0000_0000_0000_0000) as u64, (word % 0x1_0000_0000_0000_0000) as u64)
}

/// A map from pages of address spaces.
pub struct PageMap<V> {
    map: HashMap<u128, V>,
}

impl<V> View for PageMap<V> {
    type V = Map<PageKey, V>;

    closed spec fn view(&self) -> Map<PageKey, V> {
        Map::new(
            |key: PageKey| self.map@.contains_key(packed(key)),
            |key: PageKey| self.map@[packed(key)],
        )
    }
}

impl<V> PageMap<V> {
    pub fn new() -> (m: PageMap<V>)
        ensures
            m@ == Map::<PageKey, V>::empty(),
    {
        let m = PageMap { map: HashMap::new() };
        assert(m@ =~= Map::<PageKey, V>::empty());
        m
    }

    pub fn clear(&mut self)
        ensures
            final(self)@ == Map::<PageKey, V>::empty(),
    {
        self.map.clear();
        assert(self@ =~= Map::<PageKey, V>::empty());
    }

    pub fn contains_key(&self, key: &PageKey) -> (r: bool)
        ensures
            r == self@.contains_key(*key),
    {
        self.map.contains_key(&pack(key))
    }

    pub fn get(&self, key: &PageKey) -> (value: Option<&V>)
        ensures
            match value {
                Some(value) => self@.contains_key(*key) && *value == self@[*key],
                None => !self@.contains_key(*key),
            },
    {
        self.map.get(&pack(key))
    }

    pub fn insert(&mut self, key: PageKey, value: V) -> (previous: Option<V>)
        ensures
            final(self)@ == old(self)@.insert(key, value),
            match previous {
                Some(was) => old(self)@.contains_key(key) && was == old(self)@[key],
                None => !old(self)@.contains_key(key),
            },
    {
        let previous = self.map.insert(pack(&key), value);
        proof {
            assert forall|k: PageKey| packed(k) == packed(key) implies k == key by {
                lemma_packed(k);
                lemma_packed(key);
            }
            assert(self@ =~= old(self)@.insert(key, value));
        }
        previous
    }

    pub fn remove(&mut self, key: &PageKey) -> (previous: Option<V>)
        ensures
            final(self)@ == old(self)@.remove(*key),
            match previous {
                Some(was) => old(self)@.contains_key(*key) && was == old(self)@[*key],
                None => !old(self)@.contains_key(*key),
            },
    {
        let previous = self.map.remove(&pack(key));
        proof {
            assert forall|k: PageKey| packed(k) == packed(*key) implies k == *key by {
                lemma_packed(k);
                lemma_packed(*key);
            }
            assert(self@ =~= old(self)@.remove(*key));
        }
        previous
    }

    proof fn lemma_dom(&self)
        ensures
            self@.dom().finite(),
            self@.dom().len() == self.map@.dom().len(),
    {
        let f = |word: u128| unpacked(word);
        assert forall|key: PageKey| self@.dom().contains(key) implies exists|word: u128|
            self.map@.dom().contains(word) && key == #[trigger] f(word) by {
            lemma_packed(key);
            assert(f(packed(key)) == key);
        }
        assert forall|a: u128, b: u128| #[trigger] f(a) == #[trigger] f(b) implies a == b by {
            lemma_unpacked(a);
            lemma_unpacked(b);
        }
        assert forall|word: u128| #[trigger] self.map@.dom().contains(word) implies self@.dom().contains(
            f(word),
        ) by {
            lemma_unpacked(word);
        }
        assert(self@.dom() =~= self.map@.dom().map(f));
        self.map@.dom().lemma_map_finite(f);
        vstd::set_lib::lemma_map_size(self.map@.dom(), self@.dom(), f);
    }

    /// How many keys there are.
    pub fn len(&self) -> (n: usize)
        ensures
            n == self@.dom().len(),
            self@.dom().finite(),
    {
        proof {
            self.lemma_dom();
        }
        self.map.len()
    }

    /// The keys, each once, in no particular order.
    pub fn keys(&self) -> (keys: Vec<PageKey>)
        ensures
            keys@.no_duplicates(),
            forall|key: PageKey| #[trigger] keys@.contains(key) <==> self@.contains_key(key),
    {
        let mut keys: Vec<PageKey> = Vec::new();
        for word in it: self.map.keys()
            invariant
                keys@.len() == it.index(),
                forall|i: int|
                    0 <= i < keys@.len() ==> #[trigger] keys@[i] == unpacked(*it.seq()[i]),
                it.seq() == vstd::std_specs::hash::spec_keys_iter(&self.map).remaining(),
        {
            keys.push(unpack(*word));
        }
        proof {
            let words = vstd::std_specs::hash::spec_keys_iter(&self.map).remaining();
            vstd::std_specs::hash::axiom_spec_keys_iter(&self.map);
            let plain = words.unref();
            assert forall|i: int, j: int|
                0 <= i < keys@.len() && 0 <= j < keys@.len() && i != j implies keys@[i]
                != keys@[j] by {
                lemma_unpacked(*words[i]);
                lemma_unpacked(*words[j]);
            }
            assert forall|key: PageKey| #[trigger] keys@.contains(key) <==> self@.contains_key(
                key,
            ) by {
                lemma_packed(key);
                if keys@.contains(key) {
                    let i = choose|i: int| 0 <= i < keys@.len() && keys@[i] == key;
                    lemma_unpacked(*words[i]);
                    assert(plain[i] == *words[i]);
                    assert(plain.to_set().contains(plain[i]));
                }
                if self@.contains_key(key) {
                    assert(plain.to_set().contains(packed(key)));
                    let i = choose|i: int| 0 <= i < plain.len() && plain[i] == packed(key);
                    assert(keys@[i] == key);
                }
            }
        }
        keys
    }

    /// Drop every key of `exact`, and every key whose page is in `broad`, in
    /// whatever address space, unless `spared` has it.
    pub fn drop_pages<W>(
        &mut self,
        exact: &PageMap<()>,
        broad: &HashSet<u64>,
        spared: &PageMap<W>,
    )
        ensures
            final(self)@ == old(self)@.remove_keys(
                Set::new(|key: PageKey| drops(exact@, broad@, spared@.dom(), key)),
            ),
    {
        let keys: Vec<PageKey> = self.keys();
        let ghost gone = Set::new(|key: PageKey| drops(exact@, broad@, spared@.dom(), key));
        let mut i: usize = 0;
        while i < keys.len()
            invariant
                i <= keys@.len(),
                forall|key: PageKey| #[trigger]
                    keys@.contains(key) <==> old(self)@.contains_key(key),
                gone == Set::new(|key: PageKey| drops(exact@, broad@, spared@.dom(), key)),
                forall|key: PageKey| #[trigger]
                    self@.contains_key(key) <==> old(self)@.contains_key(key) && !(gone.contains(
                        key,
                    ) && keys@.subrange(0, i as int).contains(key)),
                forall|key: PageKey| #[trigger]
                    self@.contains_key(key) ==> self@[key] == old(self)@[key],
            decreases keys@.len() - i,
        {
            let key: PageKey = keys[i];
            let ghost before = keys@.subrange(0, i as int);
            let ghost after = keys@.subrange(0, i + 1);
            if exact.contains_key(&key) || (broad.contains(&key.1) && !spared.contains_key(&key)) {
                self.remove(&key);
            }
            proof {
                assert(after =~= before.push(key));
                assert forall|k: PageKey| #[trigger] after.contains(k) <==> before.contains(k) || k
                    == key by {
                    if before.contains(k) {
                        let j = choose|j: int| 0 <= j < before.len() && before[j] == k;
                        assert(after[j] == k);
                    }
                    assert(after[i as int] == key);
                    if after.contains(k) && k != key {
                        let j = choose|j: int| 0 <= j < after.len() && after[j] == k;
                        assert(before[j] == k);
                    }
                }
            }
            i = i + 1;
        }
        proof {
            assert(keys@.subrange(0, i as int) =~= keys@);
            assert forall|key: PageKey| old(self)@.contains_key(key) implies keys@.contains(key) by {
            }
            assert(self@ =~= old(self)@.remove_keys(gone));
        }
    }
}

/// Whether a key goes with the pages of `exact` and `broad`.
pub open spec fn drops(
    exact: Map<PageKey, ()>,
    broad: Set<u64>,
    spared: Set<PageKey>,
    key: PageKey,
) -> bool {
    exact.contains_key(key) || (broad.contains(key.1) && !spared.contains(key))
}

} // verus!
