//! Guest RAM addressing, and the record of which RAM pages back compiled code.

use vstd::prelude::*;

verus! {

/// Guest-physical address of the first byte of RAM.
pub const RAM_BASE: u64 = 0x8000_0000;

/// Convert a guest-physical RAM range after proving that both endpoints fit
/// the host address width and the backing allocation.
pub fn checked_ram_range(
    ram_len: usize,
    ram_base: u64,
    addr: u64,
    len: usize,
) -> (range: Option<core::ops::Range<usize>>)
    ensures
        range is Some <==> ram_base <= addr && addr - ram_base + len <= ram_len,
        range matches Some(r) ==> r.start == addr - ram_base && r.end == addr - ram_base + len,
{
    if addr < ram_base {
        return None;
    }
    let offset: u64 = addr - ram_base;
    match offset.checked_add(len as u64) {
        None => None,
        Some(end) => {
            if end > ram_len as u64 {
                return None;
            }
            Some((offset as usize)..(end as usize))
        },
    }
}

/// Bytes per tracked page.
pub const JIT_PAGE_SIZE: usize = 4096;

#[derive(Clone, Copy)]
struct JitPageFlags {
    marked: u64,
    dirty: u64,
}

/// Tracks RAM pages that back compiled code and pages written since the last
/// dispatcher drain.
///
/// Dirty flags make the hot store path idempotent. The dispatcher receives one
/// invalidation event for any number of writes to the same page between drains.
pub struct JitPageState {
    page_count: usize,
    flags: Vec<JitPageFlags>,
    dirty_pages: Vec<u64>,
    write_generations: Vec<u64>,
}

/// What a [`JitPageState`] records of guest RAM.
pub struct JitPages {
    /// Whether each page backs compiled code.
    pub marked: Seq<bool>,
    /// How often each page turned dirty, modulo the width of the counter.
    pub generation: Seq<u64>,
    /// The pages written since the last drain, in first-write order.
    pub dirty: Seq<u64>,
}

impl JitPages {
    /// One mark and one generation per page, and every dirty page is a page of
    /// RAM that is listed once.
    pub open spec fn wf(self) -> bool {
        &&& self.marked.len() == self.generation.len()
        &&& self.dirty.no_duplicates()
        &&& forall|i: int| 0 <= i < self.dirty.len() ==> #[trigger] self.dirty[i] < self.marked.len()
    }

    /// The page that holds the guest-physical address `pa`.
    pub open spec fn page_of(self, pa: u64) -> Option<int> {
        if RAM_BASE <= pa && (pa - RAM_BASE) / 4096 < self.marked.len() {
            Some((pa - RAM_BASE) / 4096)
        } else {
            None
        }
    }

    /// The record after a write to page `page`: a page of compiled code turns
    /// dirty once, and its generation moves with that.
    pub open spec fn noted(self, page: int) -> JitPages {
        if self.marked[page] && !self.dirty.contains(page as u64) {
            JitPages {
                marked: self.marked,
                generation: self.generation.update(
                    page,
                    vstd::wrapping::u64_specs::wrapping_add(self.generation[page], 1),
                ),
                dirty: self.dirty.push(page as u64),
            }
        } else {
            self
        }
    }

    /// The record after a write to each of the pages `first..end`, in order.
    pub open spec fn noted_range(self, first: int, end: int) -> JitPages
        decreases end - first,
    {
        if first >= end {
            self
        } else {
            self.noted_range(first, end - 1).noted(end - 1)
        }
    }

    /// The record after a write of `len` bytes at `pa`. A range that leaves RAM
    /// is not recorded at all.
    pub open spec fn noted_write(self, pa: u64, len: int) -> JitPages {
        if len <= 0 || pa + len - 1 > u64::MAX {
            self
        } else {
            match (self.page_of(pa), self.page_of((pa + len - 1) as u64)) {
                (Some(first), Some(last)) => self.noted_range(first, last + 1),
                _ => self,
            }
        }
    }
}

/// Bit `b` of `word`.
spec fn bit(word: u64, b: u64) -> bool {
    word & (1u64 << b) != 0
}

/// Whether the bitmaps mark page `p`.
spec fn marked_at(flags: Seq<JitPageFlags>, p: int) -> bool {
    bit(flags[p / 64].marked, (p % 64) as u64)
}

/// Whether the bitmaps call page `p` dirty.
spec fn dirty_at(flags: Seq<JitPageFlags>, p: int) -> bool {
    bit(flags[p / 64].dirty, (p % 64) as u64)
}

proof fn lemma_bits(word: u64, b: u64)
    requires
        b < 64,
    ensures
        forall|j: u64| j < 64 ==> #[trigger] bit(word | (1u64 << b), j) == (j == b || bit(word, j)),
        forall|j: u64| j < 64 ==> #[trigger] bit(word & !(1u64 << b), j) == (j != b && bit(word, j)),
{
    assert forall|j: u64| j < 64 implies #[trigger] bit(word | (1u64 << b), j) == (j == b
        || bit(word, j)) by {
        assert((word | (1u64 << b)) & (1u64 << j) != 0 <==> (j == b || word & (1u64 << j) != 0))
            by (bit_vector)
            requires
                b < 64,
                j < 64,
        ;
    }
    assert forall|j: u64| j < 64 implies #[trigger] bit(word & !(1u64 << b), j) == (j != b && bit(
        word,
        j,
    )) by {
        assert((word & !(1u64 << b)) & (1u64 << j) != 0 <==> (j != b && word & (1u64 << j) != 0))
            by (bit_vector)
            requires
                b < 64,
                j < 64,
        ;
    }
}

proof fn lemma_no_bits(b: u64)
    ensures
        !bit(0, b),
{
    assert(0u64 & (1u64 << b) == 0) by (bit_vector);
}

impl View for JitPageState {
    type V = JitPages;

    closed spec fn view(&self) -> JitPages {
        JitPages {
            marked: Seq::new(
                self.page_count as nat,
                |p: int| marked_at(self.flags@, p),
            ),
            generation: self.write_generations@,
            dirty: self.dirty_pages@,
        }
    }
}

impl JitPageState {
    /// The bitmaps cover every page, and the dirty bits agree with the dirty
    /// list.
    pub closed spec fn wf(&self) -> bool {
        &&& self@.wf()
        &&& self.flags@.len() == (self.page_count + 63) / 64
        &&& self.page_count <= usize::MAX / 4096 + 1
        &&& forall|p: int|
            0 <= p < self.page_count ==> (#[trigger] dirty_at(self.flags@, p) <==> self.dirty_pages@.contains(p as u64))
    }

    /// What a well-formed record stands for is well-formed.
    pub proof fn lemma_wf_view(&self)
        requires
            self.wf(),
        ensures
            self@.wf(),
    {
    }

    /// A record of `ram_bytes` bytes of RAM with no page marked or dirty.
    pub fn new(ram_bytes: usize) -> (state: Self)
        ensures
            state.wf(),
            state@.marked == Seq::new(
                ((ram_bytes + 4095) / 4096) as nat,
                |p: int| false,
            ),
            state@.generation == Seq::new(((ram_bytes + 4095) / 4096) as nat, |p: int| 0u64),
            state@.dirty == Seq::<u64>::empty(),
    {
        let page_count: usize = if ram_bytes % JIT_PAGE_SIZE == 0 {
            ram_bytes / JIT_PAGE_SIZE
        } else {
            ram_bytes / JIT_PAGE_SIZE + 1
        };
        let word_count: usize = (page_count + 63) / 64;
        let state = Self {
            page_count,
            flags: vec![JitPageFlags { marked: 0, dirty: 0 }; word_count],
            dirty_pages: Vec::new(),
            write_generations: vec![0; page_count],
        };
        proof {
            assert forall|p: int| 0 <= p < page_count implies !(#[trigger] marked_at(
                state.flags@,
                p,
            )) by {
                lemma_no_bits((p % 64) as u64);
            }
            assert forall|p: int| 0 <= p < page_count implies !(#[trigger] dirty_at(
                state.flags@,
                p,
            )) by {
                lemma_no_bits((p % 64) as u64);
            }
            assert(state@.marked =~= Seq::new(page_count as nat, |p: int| false));
            assert(state@.generation =~= Seq::new(page_count as nat, |p: int| 0u64));
        }
        state
    }

    fn page_for_address(&self, pa: u64) -> (page: Option<usize>)
        requires
            self.wf(),
        ensures
            match (page, self@.page_of(pa)) {
                (Some(a), Some(b)) => a == b && a < self.page_count,
                (None, None) => true,
                _ => false,
            },
    {
        if pa < RAM_BASE {
            return None;
        }
        let page: u64 = (pa - RAM_BASE) / 4096;
        if page < self.page_count as u64 {
            Some(page as usize)
        } else {
            None
        }
    }

    /// Mark the page that holds `pa` as one that backs compiled code. Returns
    /// whether it was not marked before.
    pub fn mark_address(&mut self, pa: u64) -> (newly: bool)
        requires
            old(self).wf(),
        ensures
            final(self).wf(),
            match old(self)@.page_of(pa) {
                Some(page) => {
                    &&& newly == !old(self)@.marked[page]
                    &&& final(self)@ == (JitPages {
                        marked: old(self)@.marked.update(page, true),
                        ..old(self)@
                    })
                },
                None => !newly && final(self)@ == old(self)@,
            },
    {
        if let Some(page) = self.page_for_address(pa) {
            let shift: u64 = (page % 64) as u64;
            let mask: u64 = 1u64 << shift;
            let word: usize = page / 64;
            let entry = self.flags[word];
            let newly = entry.marked & mask == 0;
            self.flags.set(word, JitPageFlags { marked: entry.marked | mask, dirty: entry.dirty });
            proof {
                lemma_bits(entry.marked, shift);
                assert forall|p: int| 0 <= p < self.page_count implies #[trigger] marked_at(
                    self.flags@,
                    p,
                ) == (p == page || marked_at(old(self).flags@, p)) by {}
                assert forall|p: int| 0 <= p < self.page_count implies #[trigger] dirty_at(
                    self.flags@,
                    p,
                ) == dirty_at(old(self).flags@, p) by {}
                assert(self@.marked =~= old(self)@.marked.update(page as int, true));
            }
            newly
        } else {
            false
        }
    }

    /// Forget that `page` backs compiled code.
    pub fn unmark_page(&mut self, page: u64)
        requires
            old(self).wf(),
        ensures
            final(self).wf(),
            final(self)@ == if page < old(self)@.marked.len() {
                JitPages { marked: old(self)@.marked.update(page as int, false), ..old(self)@ }
            } else {
                old(self)@
            },
    {
        if page < self.page_count as u64 {
            let shift: u64 = page % 64;
            let mask: u64 = 1u64 << shift;
            let word: usize = (page / 64) as usize;
            let entry = self.flags[word];
            self.flags.set(word, JitPageFlags { marked: entry.marked & !mask, dirty: entry.dirty });
            proof {
                lemma_bits(entry.marked, shift);
                assert forall|p: int| 0 <= p < self.page_count implies #[trigger] marked_at(
                    self.flags@,
                    p,
                ) == (p != page && marked_at(old(self).flags@, p)) by {}
                assert forall|p: int| 0 <= p < self.page_count implies #[trigger] dirty_at(
                    self.flags@,
                    p,
                ) == dirty_at(old(self).flags@, p) by {}
                assert(self@.marked =~= old(self)@.marked.update(page as int, false));
            }
        }
    }

    /// Whether `page` backs compiled code.
    pub fn page_marked(&self, page: u64) -> (marked: bool)
        requires
            self.wf(),
        ensures
            marked == (page < self@.marked.len() && self@.marked[page as int]),
    {
        if page < self.page_count as u64 {
            let mask: u64 = 1u64 << (page % 64);
            self.flags[(page / 64) as usize].marked & mask != 0
        } else {
            false
        }
    }

    /// Whether the page that holds `pa` backs compiled code.
    pub fn address_marked(&self, pa: u64) -> (marked: bool)
        requires
            self.wf(),
        ensures
            marked == match self@.page_of(pa) {
                Some(page) => self@.marked[page],
                None => false,
            },
    {
        match self.page_for_address(pa) {
            Some(page) => self.page_marked(page as u64),
            None => false,
        }
    }

    /// Return the write generation for a physical RAM page number.
    ///
    /// An asynchronous compiler compares this value at landing to reject code
    /// compiled from bytes that changed while compilation was in flight.
    pub fn page_generation(&self, page: u64) -> (generation: Option<u64>)
        requires
            self.wf(),
        ensures
            generation == if page < self@.generation.len() {
                Some(self@.generation[page as int])
            } else {
                None
            },
    {
        if page < self.write_generations.len() as u64 {
            Some(self.write_generations[page as usize])
        } else {
            None
        }
    }

    /// Record a store to the page that holds `pa`.
    pub fn note_store(&mut self, pa: u64)
        requires
            old(self).wf(),
        ensures
            final(self).wf(),
            final(self)@ == match old(self)@.page_of(pa) {
                Some(page) => old(self)@.noted(page),
                None => old(self)@,
            },
    {
        if let Some(page) = self.page_for_address(pa) {
            self.note_page_write(page);
        }
    }

    /// Record a DMA write to every compiled-code page touched by the range.
    pub fn note_write(&mut self, pa: u64, len: usize)
        requires
            old(self).wf(),
        ensures
            final(self).wf(),
            final(self)@ == old(self)@.noted_write(pa, len as int),
    {
        if len == 0 {
            return ;
        }
        let last: u64 = match pa.checked_add(len as u64 - 1) {
            Some(last) => last,
            None => {
                return ;
            },
        };
        let first_page: usize = match self.page_for_address(pa) {
            Some(page) => page,
            None => {
                return ;
            },
        };
        let last_page: usize = match self.page_for_address(last) {
            Some(page) => page,
            None => {
                return ;
            },
        };
        let mut page: usize = first_page;
        while page <= last_page
            invariant
                self.wf(),
                first_page <= page <= last_page + 1,
                last_page < self@.marked.len(),
                self.page_count <= usize::MAX / 4096 + 1,
                self@.marked.len() == self.page_count,
                self@ == old(self)@.noted_range(first_page as int, page as int),
            decreases last_page + 1 - page,
        {
            self.note_page_write(page);
            page = page + 1;
        }
    }

    fn note_page_write(&mut self, page: usize)
        requires
            old(self).wf(),
            page < old(self)@.marked.len(),
        ensures
            final(self).wf(),
            final(self).page_count == old(self).page_count,
            final(self)@ == old(self)@.noted(page as int),
    {
        let word: usize = page / 64;
        let shift: u64 = (page % 64) as u64;
        let mask: u64 = 1u64 << shift;
        let entry = self.flags[word];
        if entry.marked & mask != 0 && entry.dirty & mask == 0 {
            let generation: u64 = self.write_generations[page].wrapping_add(1);
            self.write_generations.set(page, generation);
            self.flags.set(word, JitPageFlags { marked: entry.marked, dirty: entry.dirty | mask });
            self.dirty_pages.push(page as u64);
            proof {
                lemma_bits(entry.dirty, shift);
                assert(marked_at(old(self).flags@, page as int));
                assert(!dirty_at(old(self).flags@, page as int));
                assert(!old(self).dirty_pages@.contains(page as u64));
                let before = old(self).dirty_pages@;
                assert(self@.marked =~= old(self)@.marked);
                assert(self.dirty_pages@ == before.push(page as u64));
                assert(self.dirty_pages@.no_duplicates());
                assert forall|p: int| 0 <= p < self.page_count implies (#[trigger] dirty_at(self.flags@, p) <==> self.dirty_pages@.contains(p as u64)) by {
                    assert(dirty_at(old(self).flags@, p)
                        <==> before.contains(p as u64));
                    if p == page {
                        assert(self.dirty_pages@[before.len() as int] == p as u64);
                    } else if before.contains(p as u64) {
                        let i = choose|i: int| 0 <= i < before.len() && before[i] == p as u64;
                        assert(self.dirty_pages@[i] == p as u64);
                    }
                }
                assert(self.wf());
            }
        } else {
            proof {
                assert(bit(entry.dirty, shift) <==> self.dirty_pages@.contains(page as u64)) by {
                    assert(dirty_at(self.flags@, page as int)
                        <==> self.dirty_pages@.contains(page as int as u64));
                }
            }
        }
    }

    /// How many pages were written since they were last taken.
    pub fn dirty_count(&self) -> (n: usize)
        ensures
            n == self@.dirty.len(),
    {
        self.dirty_pages.len()
    }

    /// Whether any page was written since the last drain.
    pub fn has_dirty(&self) -> (dirty: bool)
        requires
            self.wf(),
        ensures
            dirty == (self@.dirty.len() > 0),
    {
        self.dirty_pages.len() > 0
    }

    /// Whether `page` was written since the last drain.
    pub fn is_dirty(&self, page: u64) -> (dirty: bool)
        requires
            self.wf(),
        ensures
            dirty == self@.dirty.contains(page),
    {
        if page < self.page_count as u64 {
            let mask: u64 = 1u64 << (page % 64);
            assert(dirty_at(self.flags@, page as int)
                <==> self.dirty_pages@.contains(page as int as u64));
            self.flags[(page / 64) as usize].dirty & mask != 0
        } else {
            false
        }
    }

    /// Drain dirty physical RAM page numbers in first-write order.
    pub fn take_dirty(&mut self) -> (pages: Vec<u64>)
        requires
            old(self).wf(),
        ensures
            final(self).wf(),
            pages@ == old(self)@.dirty,
            final(self)@ == (JitPages { dirty: Seq::<u64>::empty(), ..old(self)@ }),
    {
        let mut pages: Vec<u64> = Vec::new();
        core::mem::swap(&mut pages, &mut self.dirty_pages);
        let mut i: usize = 0;
        assert forall|p: int| 0 <= p < self.page_count implies (#[trigger] dirty_at(self.flags@, p) <==> pages@.subrange(0, pages@.len() as int).contains(p as u64)) by {
            assert(dirty_at(old(self).flags@, p)
                <==> old(self).dirty_pages@.contains(p as u64));
            assert(pages@.subrange(0, pages@.len() as int) =~= pages@);
        }
        while i < pages.len()
            invariant
                i <= pages@.len(),
                pages@ == old(self)@.dirty,
                old(self).wf(),
                self.dirty_pages@ == Seq::<u64>::empty(),
                self.page_count == old(self).page_count,
                self.write_generations@ == old(self).write_generations@,
                self.flags@.len() == old(self).flags@.len(),
                self@.marked == old(self)@.marked,
                forall|p: int|
                    0 <= p < self.page_count ==> (#[trigger] dirty_at(self.flags@, p) <==> pages@.subrange(i as int, pages@.len() as int).contains(p as u64)),
            decreases pages@.len() - i,
        {
            let page: u64 = pages[i];
            let shift: u64 = page % 64;
            let mask: u64 = 1u64 << shift;
            let word: usize = (page / 64) as usize;
            assert(old(self)@.dirty[i as int] < old(self)@.marked.len());
            let entry = self.flags[word];
            let ghost flags_before = self.flags@;
            let ghost marked_before = self@.marked;
            self.flags.set(word, JitPageFlags { marked: entry.marked, dirty: entry.dirty & !mask });
            proof {
                lemma_bits(entry.dirty, shift);
                assert forall|p: int| 0 <= p < self.page_count implies #[trigger] self@.marked[p]
                    == marked_before[p] by {}
                assert(self@.marked =~= marked_before);
                let rest = pages@.subrange(i as int, pages@.len() as int);
                let next = pages@.subrange(i + 1, pages@.len() as int);
                assert forall|p: int| 0 <= p < self.page_count implies (#[trigger] dirty_at(self.flags@, p) <==> next.contains(p as u64)) by {
                    assert(dirty_at(flags_before, p) <==> rest.contains(
                        p as u64,
                    ));
                    if p == page {
                        if next.contains(p as u64) {
                            let k = choose|k: int| 0 <= k < next.len() && next[k] == p as u64;
                            assert(pages@[i + 1 + k] == pages@[i as int]);
                            assert(old(self)@.dirty.no_duplicates());
                        }
                    } else {
                        if rest.contains(p as u64) {
                            let k = choose|k: int| 0 <= k < rest.len() && rest[k] == p as u64;
                            assert(next[k - 1] == p as u64);
                        }
                        if next.contains(p as u64) {
                            let k = choose|k: int| 0 <= k < next.len() && next[k] == p as u64;
                            assert(rest[k + 1] == p as u64);
                        }
                    }
                }
            }
            i = i + 1;
        }
        proof {
            assert forall|p: int| 0 <= p < self.page_count implies (#[trigger] dirty_at(self.flags@, p) <==> self.dirty_pages@.contains(p as u64)) by {
                assert(!pages@.subrange(i as int, pages@.len() as int).contains(p as u64));
            }
        }
        pages
    }
}

// ---- laws ----------------------------------------------------------------

/// Any number of writes to one page between drains is one event: a page that is
/// dirty stays listed once and its generation does not move again.
pub proof fn law_dirty_page_is_listed_once(p: JitPages, page: int)
    requires
        p.wf(),
        0 <= page < p.marked.len(),
        p.marked.len() <= u64::MAX,
    ensures
        p.noted(page).noted(page) == p.noted(page),
        p.marked[page] ==> p.noted(page).dirty.contains(page as u64),
        !p.marked[page] ==> p.noted(page) == p,
{
    let once = p.noted(page);
    if p.marked[page] && !p.dirty.contains(page as u64) {
        assert(once.dirty[p.dirty.len() as int] == page as u64);
    }
}

} // verus!
