//! What holds of program files: which load, what their tables and symbols say,
//! and what the signature of a test spells.

use vstd::prelude::*;

use crate::bytes::{hex_digit, le_value};
use crate::elf::{
    hex_digits, segment_at, segments_loaded, signature_lines, symbol_from, tables_of, terminator,
    word, Table,
};
use crate::program_laws::{field, header_at, is_load};
use crate::tls::{readable, serial_of};

verus! {

// ---- loading -------------------------------------------------------------

/// Whether segment `k` is in the file and fits into RAM at its address.
pub open spec fn fits(bytes: Seq<u8>, programs: Table, k: int, ram_len: nat) -> bool {
    let h = header_at(programs, k);
    &&& field(bytes, h + 32) <= field(bytes, h + 40)
    &&& field(bytes, h + 8) + field(bytes, h + 32) <= bytes.len()
    &&& 0x8000_0000 <= field(bytes, h + 24)
    &&& field(bytes, h + 24) - 0x8000_0000 + field(bytes, h + 40) <= ram_len
}

/// A program loads exactly when each of its segments to load is in the file, is
/// no larger there than in memory, and fits into RAM.
pub proof fn law_program_loads_where_it_fits(
    bytes: Seq<u8>,
    programs: Table,
    ram: Seq<u8>,
    n: int,
)
    requires
        bytes.len() <= usize::MAX,
        ram.len() <= usize::MAX,
    ensures
        segments_loaded(bytes, programs, ram, n).1 is Ok <==> forall|k: int|
            0 <= k < n && is_load(bytes, programs, k) ==> #[trigger] fits(
                bytes,
                programs,
                k,
                ram.len(),
            ),
    decreases n,
{
    if n > 0 {
        law_program_loads_where_it_fits(bytes, programs, ram, n - 1);
        lemma_segment(bytes, programs, n - 1, ram.len());
        let all = forall|k: int|
            0 <= k < n - 1 && is_load(bytes, programs, k) ==> #[trigger] fits(
                bytes,
                programs,
                k,
                ram.len(),
            );
        if all && (is_load(bytes, programs, n - 1) ==> fits(bytes, programs, n - 1, ram.len())) {
            assert forall|k: int| 0 <= k < n && is_load(bytes, programs, k) implies #[trigger] fits(
                bytes,
                programs,
                k,
                ram.len(),
            ) by {
                if k == n - 1 {
                    assert(fits(bytes, programs, n - 1, ram.len()));
                }
            }
        }
    }
}

proof fn lemma_segment(bytes: Seq<u8>, programs: Table, k: int, ram_len: nat)
    requires
        bytes.len() <= usize::MAX,
        ram_len <= usize::MAX,
    ensures
        segment_at(bytes, programs.at(k), k, ram_len) is Ok <==> (is_load(bytes, programs, k)
            ==> fits(bytes, programs, k, ram_len)),
{
    let h = header_at(programs, k);
    assert(programs.at(k) == h);
    assert(word(bytes, h, 4) == le_value(bytes.subrange(h, h + 4)));
    assert(word(bytes, h + 8, 8) == field(bytes, h + 8));
    assert(word(bytes, h + 24, 8) == field(bytes, h + 24));
    assert(word(bytes, h + 32, 8) == field(bytes, h + 32));
    assert(word(bytes, h + 40, 8) == field(bytes, h + 40));
}

/// The tables of a file are where its header says: the program headers at the
/// offset in bytes 32 to 39, with the size and the number of entries in the
/// halfwords at 54 and 56, and the section headers at 40, 58 and 60. Only a
/// little-endian ELF file of 64 bits has any.
pub proof fn law_tables_are_where_the_header_says(bytes: Seq<u8>)
    requires
        bytes.len() >= 64,
    ensures
        tables_of(bytes) matches Ok((programs, sections)) ==> {
            &&& bytes.subrange(0, 6) == seq![0x7fu8, 0x45, 0x4c, 0x46, 2, 1]
            &&& programs.offset == le_value(bytes.subrange(32, 40))
            &&& programs.entry_size == le_value(bytes.subrange(54, 56))
            &&& programs.entry_count == le_value(bytes.subrange(56, 58))
            &&& sections.offset == le_value(bytes.subrange(40, 48))
            &&& sections.entry_size == le_value(bytes.subrange(58, 60))
            &&& sections.entry_count == le_value(bytes.subrange(60, 62))
            &&& programs.offset + programs.entry_size * programs.entry_count <= bytes.len()
            &&& sections.offset + sections.entry_size * sections.entry_count <= bytes.len()
            &&& programs.entry_count > 0 ==> programs.entry_size >= 56
            &&& sections.entry_count > 0 ==> sections.entry_size >= 64
        },
{
    if tables_of(bytes) is Ok {
        assert(bytes.subrange(0, 6) =~= seq![0x7fu8, 0x45, 0x4c, 0x46, 2, 1]);
        lemma_halfword(bytes, 54);
        lemma_halfword(bytes, 56);
        lemma_halfword(bytes, 58);
        lemma_halfword(bytes, 60);
    }
}

proof fn lemma_halfword(bytes: Seq<u8>, at: int)
    requires
        0 <= at,
        at + 2 <= bytes.len(),
    ensures
        word(bytes, at, 2) <= 0xffff,
{
    crate::bytes::lemma_le_value_bound(bytes.subrange(at, at + 2));
    crate::bytes::lemma_byte_spans();
}

// ---- symbols -------------------------------------------------------------

/// Whether the `k`-th symbol has a name, and it is `text`: the word at the start
/// of the entry says where it stands among the strings, ended by a zero byte.
pub open spec fn is_named(
    symbols: Seq<u8>,
    size: int,
    strings: Seq<u8>,
    k: int,
    text: Seq<u8>,
) -> bool {
    let at = le_value(symbols.subrange(k * size, k * size + 4)) as int;
    &&& at + text.len() < strings.len()
    &&& strings.subrange(at, at + text.len()) == text
    &&& strings[at + text.len()] == 0
    &&& forall|i: int| 0 <= i < text.len() ==> #[trigger] text[i] != 0
}

proof fn lemma_terminator(s: Seq<u8>, from: int, end: int)
    requires
        0 <= from <= end < s.len(),
        s[end] == 0,
        forall|i: int| from <= i < end ==> s[i] != 0,
    ensures
        terminator(s, from) == Some(end),
    decreases end - from,
{
    if from < end {
        lemma_terminator(s, from + 1, end);
    }
}

/// The first symbol of a name is found, and its value is the eight bytes at
/// offset 8 of its entry.
pub proof fn law_symbol_is_found(
    symbols: Seq<u8>,
    size: int,
    strings: Seq<u8>,
    names: Seq<Seq<u8>>,
    i: int,
    k: int,
)
    requires
        24 <= size,
        0 <= i <= k < names.len(),
        (k + 1) * size <= symbols.len(),
        forall|j: int|
            0 <= j < names.len() ==> is_named(symbols, size, strings, j, #[trigger] names[j]),
        forall|j: int| i <= j < k ==> names[j] != names[k],
    ensures
        symbol_from(symbols, size, strings, names[k], i) matches Ok(Some(v)) && v == le_value(
            symbols.subrange(k * size + 8, k * size + 16),
        ),
    decreases k - i,
{
    let at = le_value(symbols.subrange(i * size, i * size + 4)) as int;
    let text = names[i];
    assert((i + 1) * size <= (k + 1) * size) by (nonlinear_arith)
        requires
            i <= k,
            0 <= size,
    ;
    assert((k + 1) * size == k * size + size) by (nonlinear_arith);
    assert(0 <= k * size) by (nonlinear_arith)
        requires
            0 <= k,
            0 <= size,
    ;
    assert(is_named(symbols, size, strings, i, names[i]));
    assert forall|j: int| at <= j < at + text.len() implies strings[j] != 0 by {
        assert(strings.subrange(at, at + text.len())[j - at] == text[j - at]);
    }
    lemma_terminator(strings, at, at + text.len());
    if i < k {
        law_symbol_is_found(symbols, size, strings, names, i + 1, k);
    } else {
        let value = symbols.subrange(k * size + 8, k * size + 16);
        crate::bytes::lemma_le_value_bound(value);
        crate::bytes::lemma_byte_spans();
    }
}

// ---- signatures ----------------------------------------------------------

/// Two hexadecimal digits for a byte, in lower case, the high one first.
pub open spec fn spells_byte(high: u8, low: u8, b: u8) -> bool {
    &&& high == if b / 16 < 10 {
        48 + b / 16
    } else {
        87 + b / 16
    }
    &&& low == if b % 16 < 10 {
        48 + b % 16
    } else {
        87 + b % 16
    }
}

proof fn lemma_eight_digits(b: Seq<u8>)
    requires
        b.len() == 4,
    ensures
        hex_digits(le_value(b), 8).len() == 8,
        spells_byte(hex_digits(le_value(b), 8)[0], hex_digits(le_value(b), 8)[1], b[3]),
        spells_byte(hex_digits(le_value(b), 8)[2], hex_digits(le_value(b), 8)[3], b[2]),
        spells_byte(hex_digits(le_value(b), 8)[4], hex_digits(le_value(b), 8)[5], b[1]),
        spells_byte(hex_digits(le_value(b), 8)[6], hex_digits(le_value(b), 8)[7], b[0]),
{
    let (b0, b1, b2, b3) = (b[0] as int, b[1] as int, b[2] as int, b[3] as int);
    let v = le_value(b);
    crate::bus_laws::law_bytes_spell_numbers(b);
    assert(v == b0 + 256 * b1 + 65536 * b2 + 0x100_0000 * b3);
    let v1 = v / 16;
    assert(v % 16 == b0 % 16 && v1 == b0 / 16 + 16 * (b1 + 256 * b2 + 65536 * b3));
    let v2 = v1 / 16;
    assert(v1 % 16 == b0 / 16 && v2 == b1 + 256 * b2 + 65536 * b3);
    let v3 = v2 / 16;
    assert(v2 % 16 == b1 % 16 && v3 == b1 / 16 + 16 * (b2 + 256 * b3));
    let v4 = v3 / 16;
    assert(v3 % 16 == b1 / 16 && v4 == b2 + 256 * b3);
    let v5 = v4 / 16;
    assert(v4 % 16 == b2 % 16 && v5 == b2 / 16 + 16 * b3);
    let v6 = v5 / 16;
    assert(v5 % 16 == b2 / 16 && v6 == b3);
    let v7 = v6 / 16;
    assert(v6 % 16 == b3 % 16 && v7 == b3 / 16);
    assert(v7 % 16 == b3 / 16);
    assert(hex_digits(v7, 1) =~= seq![hex_digit(v7 % 16)]) by {
        assert(hex_digits(v7 / 16, 0) =~= Seq::<u8>::empty());
    }
    assert(hex_digits(v6, 2) == hex_digits(v7, 1).push(hex_digit(v6 % 16)));
    assert(hex_digits(v5, 3) == hex_digits(v6, 2).push(hex_digit(v5 % 16)));
    assert(hex_digits(v4, 4) == hex_digits(v5, 3).push(hex_digit(v4 % 16)));
    assert(hex_digits(v3, 5) == hex_digits(v4, 4).push(hex_digit(v3 % 16)));
    assert(hex_digits(v2, 6) == hex_digits(v3, 5).push(hex_digit(v2 % 16)));
    assert(hex_digits(v1, 7) == hex_digits(v2, 6).push(hex_digit(v1 % 16)));
    assert(hex_digits(v, 8) == hex_digits(v1, 7).push(hex_digit(v % 16)));
}

/// The signature of a test spells memory: a line of eight hexadecimal digits for
/// each word, its last byte first.
pub proof fn law_signature_spells_memory(ram: Seq<u8>, start: int, n: int, k: int)
    requires
        0 <= start,
        0 <= k < n,
        start + 4 * n <= ram.len(),
    ensures
        ({
            let text = signature_lines(ram, start, n);
            let at = start + 4 * k;
            &&& text.len() == 9 * n
            &&& spells_byte(text[9 * k], text[9 * k + 1], ram[at + 3])
            &&& spells_byte(text[9 * k + 2], text[9 * k + 3], ram[at + 2])
            &&& spells_byte(text[9 * k + 4], text[9 * k + 5], ram[at + 1])
            &&& spells_byte(text[9 * k + 6], text[9 * k + 7], ram[at])
            &&& text[9 * k + 8] == 10
        }),
    decreases n,
{
    let last = ram.subrange(start + 4 * (n - 1), start + 4 * (n - 1) + 4);
    lemma_eight_digits(last);
    if n > 1 {
        if k < n - 1 {
            law_signature_spells_memory(ram, start, n - 1, k);
        } else {
            law_signature_spells_memory(ram, start, n - 1, 0);
        }
    } else {
        assert(signature_lines(ram, start, 0).len() == 0);
    }
}

// ---- certificates --------------------------------------------------------

/// Every certificate of a bundle that can be read is offered as a root, in order;
/// those that cannot are left out.
pub proof fn law_readable_certificates_are_offered(sections: Seq<Option<Seq<u8>>>, k: int)
    requires
        0 <= k < sections.len(),
    ensures
        sections[k] matches Some(der) ==> readable(sections).contains(der),
        readable(sections).len() <= sections.len(),
        (forall|i: int| 0 <= i < sections.len() ==> (#[trigger] sections[i]) is Some) ==> readable(
            sections,
        ).len() == sections.len() && readable(sections)[k] == sections[k]->0,
    decreases sections.len(),
{
    let rest = sections.drop_last();
    let list = readable(sections);
    let before = readable(rest);
    if rest.len() == 0 {
        assert(before =~= Seq::<Seq<u8>>::empty());
    }
    if k < rest.len() {
        law_readable_certificates_are_offered(rest, k);
        if sections[k] is Some {
            let der = sections[k]->0;
            assert(rest[k] == sections[k]);
            let j = choose|j: int| 0 <= j < before.len() && before[j] == der;
            assert(list[j] == der);
        }
    } else {
        if rest.len() > 0 {
            law_readable_certificates_are_offered(rest, 0);
        }
        if sections[k] is Some {
            assert(list[before.len() as int] == sections[k]->0);
        }
    }
    if forall|i: int| 0 <= i < sections.len() ==> (#[trigger] sections[i]) is Some {
        assert forall|i: int| 0 <= i < rest.len() implies (#[trigger] rest[i]) is Some by {
            assert(sections[i] is Some);
        }
        assert(sections[sections.len() - 1] is Some);
    }
}

/// The serial number of a certificate is a positive number of twenty bytes, cut
/// from the identifier of its key.
pub proof fn law_serial_is_positive(key_id: Seq<u8>, i: int)
    requires
        key_id.len() >= 20,
        1 <= i < 20,
    ensures
        serial_of(key_id).len() == 20,
        serial_of(key_id)[0] < 128,
        serial_of(key_id)[0] == key_id[0] % 128,
        serial_of(key_id)[i] == key_id[i],
{
}

} // verus!
