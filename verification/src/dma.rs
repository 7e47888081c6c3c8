//! Device access to guest memory.

use vstd::prelude::*;
use crate::bytes::{le_bytes, le_value, push_le, read_le, spliced, write_at};
use crate::ram::{checked_ram_range, JitPageState, JitPages, RAM_BASE};

verus! {

/// Guest RAM, together with the record of which of its pages back compiled
/// code.
#[verifier::ext_equal]
pub struct Memory {
    pub ram: Seq<u8>,
    pub pages: JitPages,
}

/// Whether the `n` bytes at guest-physical address `addr` lie in a RAM of `len`
/// bytes at `base`.
pub open spec fn in_ram(len: nat, base: u64, addr: int, n: int) -> bool {
    base <= addr <= u64::MAX && addr - base + n <= len
}

/// The `n` bytes at guest-physical address `addr`.
pub open spec fn guest_bytes(ram: Seq<u8>, base: u64, addr: int, n: int) -> Seq<u8> {
    ram.subrange(addr - base, addr - base + n)
}

/// The little-endian number in the `n` bytes at `addr`, if they lie in RAM.
pub open spec fn guest_value(ram: Seq<u8>, base: u64, addr: int, n: int) -> Option<nat> {
    if in_ram(ram.len(), base, addr, n) {
        Some(le_value(guest_bytes(ram, base, addr, n)))
    } else {
        None
    }
}

impl Memory {
    /// The memory after `bytes` are written at `addr`: the write is noted in
    /// the page record, and one that does not lie entirely in RAM does nothing.
    pub open spec fn written(self, base: u64, addr: int, bytes: Seq<u8>) -> Memory {
        if in_ram(self.ram.len(), base, addr, bytes.len() as int) {
            Memory {
                ram: spliced(self.ram, addr - base, bytes),
                pages: self.pages.noted_write(addr as u64, bytes.len() as int),
            }
        } else {
            self
        }
    }
}

/// The memory that `ram` and `jit` stand for.
pub open spec fn memory(ram: Seq<u8>, jit: JitPageState) -> Memory {
    Memory { ram, pages: jit@ }
}

/// A write changes no byte outside its own range.
pub proof fn law_writes_stay_in_range(m: Memory, base: u64, addr: int, bytes: Seq<u8>)
    ensures
        m.written(base, addr, bytes).ram.len() == m.ram.len(),
        forall|i: int|
            0 <= i < m.ram.len() && !(addr - base <= i < addr - base + bytes.len())
                ==> m.written(base, addr, bytes).ram[i] == m.ram[i],
{
}

/// A write inside RAM is what a read of the same range gives back.
pub proof fn law_write_reads_back(m: Memory, base: u64, addr: int, bytes: Seq<u8>)
    requires
        in_ram(m.ram.len(), base, addr, bytes.len() as int),
    ensures
        guest_bytes(m.written(base, addr, bytes).ram, base, addr, bytes.len() as int) == bytes,
{
    assert(guest_bytes(m.written(base, addr, bytes).ram, base, addr, bytes.len() as int)
        =~= bytes);
}

impl Memory {
    /// Whether every byte of this RAM has a page in the record and a
    /// guest-physical address.
    pub open spec fn is_tracked(self) -> bool {
        &&& self.ram.len() <= self.pages.marked.len() * 4096
        &&& RAM_BASE + self.ram.len() <= 0x1_0000_0000_0000_0000
    }

    /// Whether every change of a byte of compiled code between this memory and
    /// `later` is on record: its page is dirty. Marks stay, and so does what was
    /// dirty.
    pub open spec fn observed_in(self, later: Memory) -> bool {
        &&& later.ram.len() == self.ram.len()
        &&& later.pages.marked == self.pages.marked
        &&& forall|p: u64| #[trigger]
            self.pages.dirty.contains(p) ==> later.pages.dirty.contains(p)
        &&& forall|i: int|
            0 <= i < self.ram.len() && #[trigger] later.ram[i] != self.ram[i]
                && self.pages.marked[i / 4096] ==> later.pages.dirty.contains((i / 4096) as u64)
    }
}

pub(crate) proof fn lemma_noted_range(pages: JitPages, first: int, end: int)
    requires
        0 <= first,
    ensures
        ({
            let later = pages.noted_range(first, end);
            &&& later.marked == pages.marked
            &&& forall|p: u64| #[trigger]
                pages.dirty.contains(p) ==> later.dirty.contains(p)
            &&& forall|p: int|
                first <= p < end && #[trigger] pages.marked[p] ==> later.dirty.contains(p as u64)
        }),
    decreases end - first,
{
    if first < end {
        lemma_noted_range(pages, first, end - 1);
        let middle = pages.noted_range(first, end - 1);
        let later = pages.noted_range(first, end);
        assert forall|p: u64| #[trigger] middle.dirty.contains(p) implies later.dirty.contains(
            p,
        ) by {
            let i = middle.dirty.index_of(p);
            assert(later.dirty[i] == p);
        }
        if pages.marked[end - 1] && !middle.dirty.contains((end - 1) as u64) {
            assert(later.dirty[middle.dirty.len() as int] == (end - 1) as u64);
        }
    }
}

/// No device write to a page of compiled code goes unobserved.
pub proof fn law_writes_are_observed(m: Memory, addr: int, bytes: Seq<u8>)
    requires
        m.is_tracked(),
    ensures
        m.observed_in(m.written(RAM_BASE, addr, bytes)),
        m.written(RAM_BASE, addr, bytes).is_tracked(),
{
    if in_ram(m.ram.len(), RAM_BASE, addr, bytes.len() as int) && bytes.len() > 0 {
        let first = (addr - RAM_BASE) / 4096;
        let last = (addr + bytes.len() - 1 - RAM_BASE) / 4096;
        let later = m.written(RAM_BASE, addr, bytes);
        assert(m.pages.page_of(addr as u64) == Some(first));
        assert(m.pages.page_of((addr + bytes.len() - 1) as u64) == Some(last));
        lemma_noted_range(m.pages, first, last + 1);
        assert forall|i: int|
            0 <= i < m.ram.len() && #[trigger] later.ram[i] != m.ram[i]
                && m.pages.marked[i / 4096] implies later.pages.dirty.contains(
            (i / 4096) as u64,
        ) by {
            assert(addr - RAM_BASE <= i < addr - RAM_BASE + bytes.len());
            assert(first <= i / 4096 <= last);
        }
    }
}

/// What is observed step by step is observed as a whole.
pub(crate) proof fn lemma_observed_on(a: Memory, b: Memory, c: Memory)
    requires
        a.observed_in(b),
        b.observed_in(c),
    ensures
        a.observed_in(c),
{
    assert forall|i: int|
        0 <= i < a.ram.len() && #[trigger] c.ram[i] != a.ram[i]
            && a.pages.marked[i / 4096] implies c.pages.dirty.contains((i / 4096) as u64) by {
        if b.ram[i] != a.ram[i] {
            assert(b.pages.dirty.contains((i / 4096) as u64));
        }
    }
}

/// Guest-physical view of a descriptor, or `None` if it does not lie entirely
/// within RAM.
pub fn guest_slice(ram: &[u8], ram_base: u64, addr: u64, len: u32) -> (slice: Option<&[u8]>)
    ensures
        slice is Some <==> in_ram(ram@.len(), ram_base, addr as int, len as int),
        slice matches Some(s) ==> s@ == guest_bytes(ram@, ram_base, addr as int, len as int),
{
    match checked_ram_range(ram.len(), ram_base, addr, len as usize) {
        Some(range) => Some(vstd::slice::slice_subrange(ram, range.start, range.end)),
        None => None,
    }
}

/// The only device-to-guest memory write primitive. Keeping DMA observation at
/// this boundary prevents a new backend from silently bypassing JIT code-page
/// invalidation.
pub fn guest_write(
    ram: &mut [u8],
    ram_base: u64,
    addr: u64,
    bytes: &[u8],
    jit: &mut JitPageState,
) -> (written: bool)
    requires
        old(jit).wf(),
    ensures
        final(jit).wf(),
        written == in_ram(old(ram)@.len(), ram_base, addr as int, bytes@.len() as int),
        memory(final(ram)@, *final(jit)) == memory(old(ram)@, *old(jit)).written(
            ram_base,
            addr as int,
            bytes@,
        ),
{
    match checked_ram_range(ram.len(), ram_base, addr, bytes.len()) {
        Some(range) => {
            write_at(ram, range.start, bytes);
            jit.note_write(addr, bytes.len());
            true
        },
        None => false,
    }
}

/// The `n`-byte number at `addr + off`, or `None` if it is not all in RAM.
pub fn read_guest(ram: &[u8], base: u64, addr: u64, off: u64, n: usize) -> (value: Option<u64>)
    requires
        n <= 8,
    ensures
        match (value, guest_value(ram@, base, addr + off, n as int)) {
            (Some(a), Some(b)) => a == b,
            (None, None) => true,
            _ => false,
        },
{
    match addr.checked_add(off) {
        Some(at) => match checked_ram_range(ram.len(), base, at, n) {
            Some(range) => Some(read_le(ram, range.start, n)),
            None => None,
        },
        None => None,
    }
}

/// Write the low `n` bytes of `v` at `addr`.
pub fn write_guest(
    ram: &mut [u8],
    base: u64,
    addr: u64,
    v: u64,
    n: usize,
    jit: &mut JitPageState,
)
    requires
        old(jit).wf(),
    ensures
        final(jit).wf(),
        memory(final(ram)@, *final(jit)) == memory(old(ram)@, *old(jit)).written(
            base,
            addr as int,
            le_bytes(v as nat, n as nat),
        ),
{
    let mut bytes: Vec<u8> = Vec::new();
    push_le(&mut bytes, v, n);
    assert(bytes@ =~= le_bytes(v as nat, n as nat));
    guest_write(ram, base, addr, bytes.as_slice(), jit);
}

} // verus!
