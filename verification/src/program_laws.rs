//! What holds of guest programs: decoded blocks are what memory holds, and
//! loaded programs are what their files hold.

use vstd::prelude::*;
use crate::bytes::le_value;
use crate::codecache::{insn_at, run_at, run_size, DecodedInsn};
use crate::elf::{segments_loaded, Table};

verus! {

/// The halfword at byte `o` of a page.
pub open spec fn halfword_at(page: Seq<u8>, o: int) -> int {
    page[o] + 256 * page[o + 1]
}

/// Bytes that the instruction at byte `o` of a page takes: four if its low two
/// bits are set, else two.
pub open spec fn size_at(page: Seq<u8>, o: int) -> int {
    if halfword_at(page, o) % 4 == 3 {
        4
    } else {
        2
    }
}

proof fn lemma_insn(page: Seq<u8>, ends: Seq<bool>, o: int)
    requires
        page.len() == 4096,
        0 <= o,
    ensures
        insn_at(page, ends, o) is Some <==> o + 2 <= 4096 && o + size_at(page, o) <= 4096,
        insn_at(page, ends, o) matches Some(insn) ==> {
            &&& insn.word == if size_at(page, o) == 4 {
                halfword_at(page, o) + 0x1_0000 * halfword_at(page, o + 2)
            } else {
                halfword_at(page, o)
            }
            &&& insn.size() == size_at(page, o)
            &&& insn.ends_block == ends[o / 2]
        },
{
    if o + 2 <= 4096 {
        let two = page.subrange(o, o + 2);
        crate::bus_laws::law_bytes_spell_numbers(two);
        assert(two[0] == page[o] && two[1] == page[o + 1]);
        if o + 4 <= 4096 {
            let four = page.subrange(o, o + 4);
            crate::bus_laws::law_bytes_spell_numbers(four);
            assert(four[0] == page[o] && four[1] == page[o + 1] && four[2] == page[o + 2] && four[3]
                == page[o + 3]);
        }
    }
}

/// A decoded block is what memory holds: each of its instructions is the bytes
/// behind the one before, and the block goes on until an instruction ends a basic
/// block, the page ends, or there are as many as are allowed.
pub proof fn law_decoded_block_is_memory(
    page: Seq<u8>,
    ends: Seq<bool>,
    off: int,
    limit: nat,
    k: int,
)
    requires
        page.len() == 4096,
        0 <= off,
        0 <= k < run_at(page, ends, off, limit).len(),
    ensures
        ({
            let run = run_at(page, ends, off, limit);
            let o = off + run_size(run, k);
            let next = o + size_at(page, o);
            &&& run.len() <= limit
            &&& off <= o && next <= 4096
            &&& run[k].word == if size_at(page, o) == 4 {
                halfword_at(page, o) + 0x1_0000 * halfword_at(page, o + 2)
            } else {
                halfword_at(page, o)
            }
            &&& run[k].ends_block == ends[o / 2]
            &&& off + run_size(run, k + 1) == next
            &&& (k + 1 < run.len() ==> !run[k].ends_block && next < 4096)
            &&& (k + 1 == run.len() ==> run[k].ends_block || run.len() == limit || next + 2 > 4096
                || next + size_at(page, next) > 4096)
        }),
    decreases limit,
{
    let run = run_at(page, ends, off, limit);
    lemma_insn(page, ends, off);
    let insn = insn_at(page, ends, off)->0;
    let next = off + insn.size();
    assert(run[0] == insn);
    reveal_with_fuel(run_size, 2);
    if !insn.ends_block && next != 4096 {
        let rest = run_at(page, ends, next, (limit - 1) as nat);
        assert(run == seq![insn] + rest);
        if k > 0 {
            law_decoded_block_is_memory(page, ends, next, (limit - 1) as nat, k - 1);
            lemma_shift(insn, rest, k);
            lemma_shift(insn, rest, k + 1);
            assert(run[k] == rest[k - 1]);
        } else if rest.len() == 0 && limit > 1 {
            lemma_insn(page, ends, next);
        } else if rest.len() > 0 {
            law_decoded_block_is_memory(page, ends, next, (limit - 1) as nat, 0);
        }
    }
}

proof fn lemma_shift(insn: DecodedInsn, rest: Seq<DecodedInsn>, k: int)
    requires
        1 <= k <= rest.len() + 1,
    ensures
        run_size(seq![insn] + rest, k) == insn.size() + run_size(rest, k - 1),
    decreases k,
{
    let run = seq![insn] + rest;
    if k > 1 {
        lemma_shift(insn, rest, k - 1);
        assert(run[k - 1] == rest[k - 2]);
    } else {
        assert(run_size(run, 0) == 0);
        assert(run[0] == insn);
    }
}

/// The little-endian number in eight bytes of a file.
pub open spec fn field(bytes: Seq<u8>, at: int) -> int {
    le_value(bytes.subrange(at, at + 8)) as int
}

/// Where the header of segment `k` stands.
pub open spec fn header_at(programs: Table, k: int) -> int {
    programs.offset + programs.entry_size * k
}

/// Whether segment `k` is one to load.
pub open spec fn is_load(bytes: Seq<u8>, programs: Table, k: int) -> bool {
    let h = header_at(programs, k);
    le_value(bytes.subrange(h, h + 4)) == 1
}

/// Whether byte `i` of RAM belongs to segment `k`.
pub open spec fn covers(bytes: Seq<u8>, programs: Table, k: int, i: int) -> bool {
    let h = header_at(programs, k);
    is_load(bytes, programs, k) && field(bytes, h + 24) - 0x8000_0000 <= i < field(bytes, h + 24)
        - 0x8000_0000 + field(bytes, h + 40)
}

/// A program that loads is in memory: each segment to load stands at its physical
/// address as the file holds it, with zeros behind it up to its size in memory,
/// unless a later segment covers it. The fields are those of a program header:
/// the file offset at 8, the address at 24, the sizes in the file and in memory
/// at 32 and 40.
pub proof fn law_program_is_in_memory(
    bytes: Seq<u8>,
    programs: Table,
    ram: Seq<u8>,
    n: int,
    k: int,
    j: int,
)
    requires
        segments_loaded(bytes, programs, ram, n).1 is Ok,
        0 <= k < n,
        is_load(bytes, programs, k),
        0 <= j < field(bytes, header_at(programs, k) + 40),
        forall|l: int|
            k < l < n ==> !#[trigger] covers(
                bytes,
                programs,
                l,
                field(bytes, header_at(programs, k) + 24) - 0x8000_0000 + j,
            ),
    ensures
        ({
            let h = header_at(programs, k);
            let at = field(bytes, h + 24) - 0x8000_0000 + j;
            let now = segments_loaded(bytes, programs, ram, n).0;
            &&& now.len() == ram.len()
            &&& 0 <= at < ram.len()
            &&& field(bytes, h + 32) <= field(bytes, h + 40)
            &&& now[at] == if j < field(bytes, h + 32) {
                bytes[field(bytes, h + 8) + j]
            } else {
                0
            }
        }),
    decreases n,
{
    let h = header_at(programs, k);
    let at = field(bytes, h + 24) - 0x8000_0000 + j;
    lemma_len(bytes, programs, ram, n);
    lemma_len(bytes, programs, ram, n - 1);
    if k < n - 1 {
        law_program_is_in_memory(bytes, programs, ram, n - 1, k, j);
        assert(!covers(bytes, programs, n - 1, at));
    }
}

proof fn lemma_len(bytes: Seq<u8>, programs: Table, ram: Seq<u8>, n: int)
    ensures
        segments_loaded(bytes, programs, ram, n).0.len() == ram.len(),
    decreases n,
{
    if n > 0 {
        lemma_len(bytes, programs, ram, n - 1);
    }
}

} // verus!
