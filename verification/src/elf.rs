//! ISA conformance programs: bare-metal ELF files that report their result by
//! writing to the `tohost` symbol: 1 = pass, (n<<1)|1 = case n failed.

use vstd::prelude::*;
use vstd::string::StringSliceAdditionalSpecFns;
use crate::bytes::{
    dec_text, hex_digit, le_value, push_dec, push_zeros, read_le, write_at,
};
use crate::ram::{checked_ram_range, RAM_BASE};

verus! {

pub const ELF_HEADER_SIZE: usize = 64;

pub const PROGRAM_HEADER_SIZE: usize = 56;

pub const SECTION_HEADER_SIZE: usize = 64;

pub const SYMBOL_SIZE: usize = 24;

pub const PT_LOAD: u32 = 1;

pub const SHT_SYMTAB: u32 = 2;

pub const SHT_STRTAB: u32 = 3;

// ---- errors --------------------------------------------------------------

/// A part of the file.
#[derive(Debug, Clone, Copy, PartialEq, Eq, Structural)]
pub enum Part {
    Programs,
    Sections,
    Segment,
    Symbols,
    Strings,
}

impl Part {
    pub open spec fn name(self) -> Seq<u8> {
        match self {
            Part::Programs => "program header table".spec_bytes(),
            Part::Sections => "section header table".spec_bytes(),
            Part::Segment => "load segment".spec_bytes(),
            Part::Symbols => "symbol table".spec_bytes(),
            Part::Strings => "symbol string table".spec_bytes(),
        }
    }

    fn label(self) -> (s: &'static str)
        ensures
            s.spec_bytes() == self.name(),
    {
        match self {
            Part::Programs => "program header table",
            Part::Sections => "section header table",
            Part::Segment => "load segment",
            Part::Symbols => "symbol table",
            Part::Strings => "symbol string table",
        }
    }
}

/// Why a file cannot be loaded.
#[derive(Debug, Clone, Copy, PartialEq, Eq, Structural)]
pub enum ElfError {
    HeaderTruncated,
    NotElf,
    WrongFormat,
    EntriesTooSmall(Part),
    OffsetTooLarge(Part),
    SizeTooLarge(Part),
    RangeOverflows(Part),
    Truncated(Part),
    SectionOutOfRange,
    FileLargerThanMemory(usize),
    SegmentOffsetTooLarge(usize),
    SegmentFileTooLarge(usize),
    SegmentMemoryTooLarge(usize),
    SegmentOutsideRam(usize),
    SymbolEntryTooLarge,
    SymbolEntryInvalid,
    NoStringTable,
    NameOutsideStrings,
    NameNotTerminated,
    NoTohost,
    EntryOutsideRam,
    TohostOutsideRam,
}

impl ElfError {
    /// The error in words.
    pub open spec fn text(self) -> Seq<u8> {
        match self {
            ElfError::HeaderTruncated => "ELF header is truncated".spec_bytes(),
            ElfError::NotElf => "not an ELF file".spec_bytes(),
            ElfError::WrongFormat => "ELF must use the 64-bit little-endian format".spec_bytes(),
            ElfError::EntriesTooSmall(p) => p.name() + " entries are too small".spec_bytes(),
            ElfError::OffsetTooLarge(p) => p.name() + " offset is too large".spec_bytes(),
            ElfError::SizeTooLarge(p) => p.name() + " size is too large".spec_bytes(),
            ElfError::RangeOverflows(p) => p.name() + " range overflows".spec_bytes(),
            ElfError::Truncated(p) => p.name() + " is truncated".spec_bytes(),
            ElfError::SectionOutOfRange => "section index is out of range".spec_bytes(),
            ElfError::FileLargerThanMemory(i) => segment_text(
                i,
                " has a file size larger than its memory size".spec_bytes(),
            ),
            ElfError::SegmentOffsetTooLarge(i) => segment_text(
                i,
                " file offset is too large".spec_bytes(),
            ),
            ElfError::SegmentFileTooLarge(i) => segment_text(
                i,
                " file size is too large".spec_bytes(),
            ),
            ElfError::SegmentMemoryTooLarge(i) => segment_text(
                i,
                " memory size is too large".spec_bytes(),
            ),
            ElfError::SegmentOutsideRam(i) => segment_text(
                i,
                " lies outside guest RAM".spec_bytes(),
            ),
            ElfError::SymbolEntryTooLarge => "symbol table entry size is too large".spec_bytes(),
            ElfError::SymbolEntryInvalid => "symbol table has an invalid entry size".spec_bytes(),
            ElfError::NoStringTable =>
                "symbol table does not link to a string table".spec_bytes(),
            ElfError::NameOutsideStrings =>
                "symbol name lies outside its string table".spec_bytes(),
            ElfError::NameNotTerminated => "symbol name is not terminated".spec_bytes(),
            ElfError::NoTohost => "ELF does not define tohost".spec_bytes(),
            ElfError::EntryOutsideRam => "entry point lies outside guest RAM".spec_bytes(),
            ElfError::TohostOutsideRam => "tohost lies outside guest RAM".spec_bytes(),
        }
    }

    /// The error in words, as UTF-8.
    pub fn message(self) -> (out: Vec<u8>)
        ensures
            out@ == self.text(),
    {
        match self {
            ElfError::HeaderTruncated => words("ELF header is truncated"),
            ElfError::NotElf => words("not an ELF file"),
            ElfError::WrongFormat => words("ELF must use the 64-bit little-endian format"),
            ElfError::EntriesTooSmall(p) => joined(p.label(), " entries are too small"),
            ElfError::OffsetTooLarge(p) => joined(p.label(), " offset is too large"),
            ElfError::SizeTooLarge(p) => joined(p.label(), " size is too large"),
            ElfError::RangeOverflows(p) => joined(p.label(), " range overflows"),
            ElfError::Truncated(p) => joined(p.label(), " is truncated"),
            ElfError::SectionOutOfRange => words("section index is out of range"),
            ElfError::FileLargerThanMemory(i) => segment_words(
                i,
                " has a file size larger than its memory size",
            ),
            ElfError::SegmentOffsetTooLarge(i) => segment_words(i, " file offset is too large"),
            ElfError::SegmentFileTooLarge(i) => segment_words(i, " file size is too large"),
            ElfError::SegmentMemoryTooLarge(i) => segment_words(i, " memory size is too large"),
            ElfError::SegmentOutsideRam(i) => segment_words(i, " lies outside guest RAM"),
            ElfError::SymbolEntryTooLarge => words("symbol table entry size is too large"),
            ElfError::SymbolEntryInvalid => words("symbol table has an invalid entry size"),
            ElfError::NoStringTable => words("symbol table does not link to a string table"),
            ElfError::NameOutsideStrings => words("symbol name lies outside its string table"),
            ElfError::NameNotTerminated => words("symbol name is not terminated"),
            ElfError::NoTohost => words("ELF does not define tohost"),
            ElfError::EntryOutsideRam => words("entry point lies outside guest RAM"),
            ElfError::TohostOutsideRam => words("tohost lies outside guest RAM"),
        }
    }
}

/// An error about one load segment.
pub open spec fn segment_text(index: usize, rest: Seq<u8>) -> Seq<u8> {
    "load segment ".spec_bytes() + dec_text(index as nat) + rest
}

fn words(s: &str) -> (out: Vec<u8>)
    ensures
        out@ == s.spec_bytes(),
{
    vstd::slice::slice_to_vec(s.as_bytes())
}

fn joined(a: &str, b: &str) -> (out: Vec<u8>)
    ensures
        out@ == a.spec_bytes() + b.spec_bytes(),
{
    let mut out: Vec<u8> = words(a);
    crate::bytes::push_all(&mut out, b.as_bytes());
    out
}

fn segment_words(index: usize, rest: &str) -> (out: Vec<u8>)
    ensures
        out@ == segment_text(index, rest.spec_bytes()),
{
    let mut out: Vec<u8> = words("load segment ");
    push_dec(&mut out, index as u64);
    crate::bytes::push_all(&mut out, rest.as_bytes());
    out
}

// ---- the file ------------------------------------------------------------

/// The little-endian number of `n` bytes at `off`.
pub open spec fn word(bytes: Seq<u8>, off: int, n: int) -> nat {
    le_value(bytes.subrange(off, off + n))
}

/// Whether `size` bytes at `offset` are in the file, or the error.
pub open spec fn file_range(len: nat, offset: int, size: int, part: Part) -> Result<(), ElfError> {
    if offset + size > usize::MAX {
        Err(ElfError::RangeOverflows(part))
    } else if offset + size > len {
        Err(ElfError::Truncated(part))
    } else {
        Ok(())
    }
}

fn checked_file_range(file_size: usize, offset: usize, size: usize, part: Part) -> (r: Result<
    core::ops::Range<usize>,
    ElfError,
>)
    ensures
        match (r, file_range(file_size as nat, offset as int, size as int, part)) {
            (Ok(range), Ok(_)) => range.start == offset && range.end == offset + size,
            (Err(a), Err(b)) => a == b,
            _ => false,
        },
{
    match offset.checked_add(size) {
        None => Err(ElfError::RangeOverflows(part)),
        Some(end) => {
            if end > file_size {
                return Err(ElfError::Truncated(part));
            }
            Ok(offset..end)
        },
    }
}

/// A table of the file: entries of one size, one after another.
#[derive(Debug, Clone, Copy, PartialEq, Eq, Structural)]
pub struct Table {
    pub offset: usize,
    pub entry_size: usize,
    pub entry_count: usize,
}

impl Table {
    /// Every entry is in the file and has at least `minimum` bytes.
    pub open spec fn within(self, len: nat, minimum: int) -> bool {
        &&& self.offset + self.entry_size * self.entry_count <= len
        &&& self.entry_count > 0 ==> self.entry_size >= minimum
    }

    /// Where an entry starts.
    pub open spec fn at(self, index: int) -> int {
        self.offset + self.entry_size * index
    }
}

/// The table that a header describes, or the error.
pub open spec fn table_of(
    len: nat,
    offset: nat,
    entry_size: nat,
    entry_count: nat,
    minimum: int,
    part: Part,
) -> Result<Table, ElfError> {
    if entry_count != 0 && entry_size < minimum {
        Err(ElfError::EntriesTooSmall(part))
    } else if offset > usize::MAX {
        Err(ElfError::OffsetTooLarge(part))
    } else {
        match file_range(len, offset as int, (entry_size * entry_count) as int, part) {
            Err(e) => Err(e),
            Ok(_) => Ok(
                Table {
                    offset: offset as usize,
                    entry_size: entry_size as usize,
                    entry_count: entry_count as usize,
                },
            ),
        }
    }
}

/// An ELF file: its entry point and its two tables.
#[derive(Clone, Copy)]
pub struct Elf64<'a> {
    pub bytes: &'a [u8],
    pub entry: u64,
    pub programs: Table,
    pub sections: Table,
}

/// The tables of a file, or the error.
pub open spec fn tables_of(bytes: Seq<u8>) -> Result<(Table, Table), ElfError> {
    if bytes.len() < ELF_HEADER_SIZE {
        Err(ElfError::HeaderTruncated)
    } else if !(bytes[0] == 0x7f && bytes[1] == 69 && bytes[2] == 76 && bytes[3] == 70) {
        Err(ElfError::NotElf)
    } else if bytes[4] != 2 || bytes[5] != 1 {
        Err(ElfError::WrongFormat)
    } else {
        match table_of(
            bytes.len(),
            word(bytes, 32, 8),
            word(bytes, 54, 2),
            word(bytes, 56, 2),
            PROGRAM_HEADER_SIZE as int,
            Part::Programs,
        ) {
            Err(e) => Err(e),
            Ok(programs) => match table_of(
                bytes.len(),
                word(bytes, 40, 8),
                word(bytes, 58, 2),
                word(bytes, 60, 2),
                SECTION_HEADER_SIZE as int,
                Part::Sections,
            ) {
                Err(e) => Err(e),
                Ok(sections) => Ok((programs, sections)),
            },
        }
    }
}

/// A section header.
#[derive(Debug, Clone, Copy, PartialEq, Eq, Structural)]
pub struct Section {
    pub kind: u32,
    pub offset: u64,
    pub size: u64,
    pub link: u32,
    pub entry_size: u64,
}

/// The section header at `at`.
pub open spec fn section_at(bytes: Seq<u8>, at: int) -> Section {
    Section {
        kind: word(bytes, at + 4, 4) as u32,
        offset: word(bytes, at + 24, 8) as u64,
        size: word(bytes, at + 32, 8) as u64,
        link: word(bytes, at + 40, 4) as u32,
        entry_size: word(bytes, at + 56, 8) as u64,
    }
}

/// What a section holds, or the error.
pub open spec fn section_data(bytes: Seq<u8>, section: Section, part: Part) -> Result<
    Seq<u8>,
    ElfError,
> {
    if section.offset > usize::MAX {
        Err(ElfError::OffsetTooLarge(part))
    } else if section.size > usize::MAX {
        Err(ElfError::SizeTooLarge(part))
    } else {
        match file_range(bytes.len(), section.offset as int, section.size as int, part) {
            Err(e) => Err(e),
            Ok(_) => Ok(
                bytes.subrange(section.offset as int, section.offset + section.size),
            ),
        }
    }
}

fn read_word(bytes: &[u8], off: usize, n: usize) -> (v: u64)
    requires
        off + n <= bytes@.len(),
        n <= 8,
    ensures
        v as nat == word(bytes@, off as int, n as int),
        n == 4 ==> v < 0x1_0000_0000,
        n == 2 ==> v < 0x1_0000,
{
    let v: u64 = read_le(bytes, off, n);
    proof {
        crate::bytes::lemma_le_value_bound(bytes@.subrange(off as int, off + n));
        assert(crate::bytes::byte_span(4) == 0x1_0000_0000 && crate::bytes::byte_span(2) == 0x1_0000)
            by {
            crate::bytes::lemma_byte_spans();
        }
    }
    v
}

impl<'a> Elf64<'a> {
    /// Both tables are in the file.
    pub open spec fn wf(&self) -> bool {
        &&& self.programs.within(self.bytes@.len(), PROGRAM_HEADER_SIZE as int)
        &&& self.sections.within(self.bytes@.len(), SECTION_HEADER_SIZE as int)
    }

    /// Read the header of a file.
    pub fn parse(bytes: &'a [u8]) -> (r: Result<Elf64<'a>, ElfError>)
        ensures
            match (r, tables_of(bytes@)) {
                (Ok(elf), Ok((programs, sections))) => {
                    &&& elf.wf()
                    &&& elf.bytes@ == bytes@
                    &&& elf.entry as nat == word(bytes@, 24, 8)
                    &&& elf.programs == programs
                    &&& elf.sections == sections
                },
                (Err(a), Err(b)) => a == b,
                _ => false,
            },
    {
        if bytes.len() < ELF_HEADER_SIZE {
            return Err(ElfError::HeaderTruncated);
        }
        if !(bytes[0] == 0x7f && bytes[1] == 69 && bytes[2] == 76 && bytes[3] == 70) {
            return Err(ElfError::NotElf);
        }
        if bytes[4] != 2 || bytes[5] != 1 {
            return Err(ElfError::WrongFormat);
        }
        let programs = match Self::table(
            bytes,
            read_word(bytes, 32, 8),
            read_word(bytes, 54, 2) as u16,
            read_word(bytes, 56, 2) as u16,
            PROGRAM_HEADER_SIZE,
            Part::Programs,
        ) {
            Ok(table) => table,
            Err(e) => {
                return Err(e);
            },
        };
        let sections = match Self::table(
            bytes,
            read_word(bytes, 40, 8),
            read_word(bytes, 58, 2) as u16,
            read_word(bytes, 60, 2) as u16,
            SECTION_HEADER_SIZE,
            Part::Sections,
        ) {
            Ok(table) => table,
            Err(e) => {
                return Err(e);
            },
        };
        Ok(Elf64 { bytes, entry: read_word(bytes, 24, 8), programs, sections })
    }

    fn table(
        bytes: &[u8],
        offset: u64,
        entry_size: u16,
        entry_count: u16,
        minimum_entry_size: usize,
        part: Part,
    ) -> (r: Result<Table, ElfError>)
        ensures
            r == table_of(
                bytes@.len(),
                offset as nat,
                entry_size as nat,
                entry_count as nat,
                minimum_entry_size as int,
                part,
            ),
            r matches Ok(table) ==> table.within(bytes@.len(), minimum_entry_size as int),
    {
        if entry_count != 0 && (entry_size as usize) < minimum_entry_size {
            return Err(ElfError::EntriesTooSmall(part));
        }
        if offset > usize::MAX as u64 {
            return Err(ElfError::OffsetTooLarge(part));
        }
        assert(0 <= entry_size * entry_count <= 0xffff * 0xffff) by (nonlinear_arith)
            requires
                entry_size <= 0xffff,
                entry_count <= 0xffff,
        ;
        let size: usize = entry_size as usize * entry_count as usize;
        match checked_file_range(bytes.len(), offset as usize, size, part) {
            Err(e) => Err(e),
            Ok(_) => Ok(
                Table {
                    offset: offset as usize,
                    entry_size: entry_size as usize,
                    entry_count: entry_count as usize,
                },
            ),
        }
    }
}

proof fn lemma_entry_within(table: Table, len: nat, minimum: int, index: int)
    requires
        table.within(len, minimum),
        0 <= index < table.entry_count,
    ensures
        table.offset <= table.at(index),
        table.at(index) + table.entry_size <= len,
        table.at(index) + minimum <= len,
        0 <= table.entry_size * index <= len,
{
    assert(table.entry_size * index + table.entry_size <= table.entry_size * table.entry_count)
        by (nonlinear_arith)
        requires
            index + 1 <= table.entry_count,
            table.entry_size >= 0,
    ;
    assert(0 <= table.entry_size * index) by (nonlinear_arith)
        requires
            0 <= index,
            table.entry_size >= 0,
    ;
}

// ---- load segments -------------------------------------------------------

/// Where a load segment comes from and where it goes.
pub struct Segment {
    pub file_offset: int,
    pub file_size: int,
    pub address: int,
    pub memory_size: int,
}

/// The load segment of the program header at `at`, nothing where the header is
/// of another type, or the error.
pub open spec fn segment_at(bytes: Seq<u8>, at: int, index: int, ram_len: nat) -> Result<
    Option<Segment>,
    ElfError,
> {
    let s = Segment {
        file_offset: word(bytes, at + 8, 8) as int,
        address: word(bytes, at + 24, 8) as int,
        file_size: word(bytes, at + 32, 8) as int,
        memory_size: word(bytes, at + 40, 8) as int,
    };
    if word(bytes, at, 4) != PT_LOAD {
        Ok(None)
    } else if s.file_size > s.memory_size {
        Err(ElfError::FileLargerThanMemory(index as usize))
    } else if s.file_offset > usize::MAX {
        Err(ElfError::SegmentOffsetTooLarge(index as usize))
    } else if s.file_size > usize::MAX {
        Err(ElfError::SegmentFileTooLarge(index as usize))
    } else {
        match file_range(bytes.len(), s.file_offset, s.file_size, Part::Segment) {
            Err(e) => Err(e),
            Ok(_) => if s.memory_size > usize::MAX {
                Err(ElfError::SegmentMemoryTooLarge(index as usize))
            } else if !(RAM_BASE <= s.address && s.address - RAM_BASE + s.memory_size
                <= ram_len) {
                Err(ElfError::SegmentOutsideRam(index as usize))
            } else {
                Ok(Some(s))
            },
        }
    }
}

/// RAM with a segment in place: what the file holds of it, then zeros.
pub open spec fn placed(ram: Seq<u8>, bytes: Seq<u8>, s: Segment) -> Seq<u8> {
    Seq::new(
        ram.len(),
        |i: int|
            {
                let k = i - (s.address - RAM_BASE);
                if 0 <= k < s.file_size {
                    bytes[s.file_offset + k]
                } else if 0 <= k < s.memory_size {
                    0
                } else {
                    ram[i]
                }
            },
    )
}

/// RAM after the first `n` program headers were loaded in turn, up to the first
/// that cannot be, and its error.
pub open spec fn segments_loaded(bytes: Seq<u8>, programs: Table, ram: Seq<u8>, n: int) -> (
    Seq<u8>,
    Result<(), ElfError>,
)
    decreases n,
{
    if n <= 0 {
        (ram, Ok(()))
    } else {
        match segments_loaded(bytes, programs, ram, n - 1) {
            (before, Err(e)) => (before, Err(e)),
            (before, Ok(_)) => match segment_at(bytes, programs.at(n - 1), n - 1, ram.len()) {
                Err(e) => (before, Err(e)),
                Ok(None) => (before, Ok(())),
                Ok(Some(s)) => (placed(before, bytes, s), Ok(())),
            },
        }
    }
}

proof fn lemma_segments_stop(bytes: Seq<u8>, programs: Table, ram: Seq<u8>, m: int, n: int)
    requires
        0 <= m <= n,
        segments_loaded(bytes, programs, ram, m).1 is Err,
    ensures
        segments_loaded(bytes, programs, ram, n) == segments_loaded(bytes, programs, ram, m),
    decreases n,
{
    if m < n {
        lemma_segments_stop(bytes, programs, ram, m, n - 1);
    }
}

// ---- symbols -------------------------------------------------------------

/// The offset of the first zero byte from `from` on.
pub open spec fn terminator(s: Seq<u8>, from: int) -> Option<int>
    decreases s.len() - from,
{
    if from < 0 || from >= s.len() {
        None
    } else if s[from] == 0 {
        Some(from)
    } else {
        terminator(s, from + 1)
    }
}

/// The value of the first symbol named `wanted` from the `i`-th on, or the
/// error on the way.
pub open spec fn symbol_from(
    symbols: Seq<u8>,
    entry_size: int,
    strings: Seq<u8>,
    wanted: Seq<u8>,
    i: int,
) -> Result<Option<u64>, ElfError>
    decreases symbols.len() - i * entry_size,
    when entry_size >= SYMBOL_SIZE && i >= 0
    via symbol_from_decreases
{
    if (i + 1) * entry_size > symbols.len() {
        Ok(None)
    } else {
        let name = word(symbols, i * entry_size, 4) as int;
        if name > strings.len() {
            Err(ElfError::NameOutsideStrings)
        } else {
            match terminator(strings, name) {
                None => Err(ElfError::NameNotTerminated),
                Some(end) => if strings.subrange(name, end) == wanted {
                    Ok(Some(word(symbols, i * entry_size + 8, 8) as u64))
                } else {
                    symbol_from(symbols, entry_size, strings, wanted, i + 1)
                },
            }
        }
    }
}

#[via_fn]
proof fn symbol_from_decreases(
    symbols: Seq<u8>,
    entry_size: int,
    strings: Seq<u8>,
    wanted: Seq<u8>,
    i: int,
) {
    assert((i + 1) * entry_size == i * entry_size + entry_size) by (nonlinear_arith);
}

/// The value of the first symbol named `wanted` in one section, nothing where
/// the section is no symbol table, or the error.
pub open spec fn symbol_in(bytes: Seq<u8>, sections: Table, index: int, wanted: Seq<u8>) -> Result<
    Option<u64>,
    ElfError,
> {
    let symbols = section_at(bytes, sections.at(index));
    if symbols.kind != SHT_SYMTAB {
        Ok(None)
    } else if symbols.entry_size > usize::MAX {
        Err(ElfError::SymbolEntryTooLarge)
    } else if symbols.entry_size < SYMBOL_SIZE || symbols.size % symbols.entry_size != 0 {
        Err(ElfError::SymbolEntryInvalid)
    } else if symbols.link >= sections.entry_count {
        Err(ElfError::SectionOutOfRange)
    } else {
        let strings = section_at(bytes, sections.at(symbols.link as int));
        if strings.kind != SHT_STRTAB {
            Err(ElfError::NoStringTable)
        } else {
            match section_data(bytes, symbols, Part::Symbols) {
                Err(e) => Err(e),
                Ok(symbol_bytes) => match section_data(bytes, strings, Part::Strings) {
                    Err(e) => Err(e),
                    Ok(string_bytes) => symbol_from(
                        symbol_bytes,
                        symbols.entry_size as int,
                        string_bytes,
                        wanted,
                        0,
                    ),
                },
            }
        }
    }
}

/// The value of the first symbol named `wanted` in the sections from `index`
/// on, or the error on the way.
pub open spec fn symbol_of(bytes: Seq<u8>, sections: Table, wanted: Seq<u8>, index: int) -> Result<
    Option<u64>,
    ElfError,
>
    decreases sections.entry_count - index,
{
    if index < 0 || index >= sections.entry_count {
        Ok(None)
    } else {
        match symbol_in(bytes, sections, index, wanted) {
            Ok(None) => symbol_of(bytes, sections, wanted, index + 1),
            found => found,
        }
    }
}

fn same_bytes(a: &[u8], from: usize, to: usize, b: &[u8]) -> (same: bool)
    requires
        from <= to <= a@.len(),
    ensures
        same == (a@.subrange(from as int, to as int) == b@),
{
    let ghost part = a@.subrange(from as int, to as int);
    if to - from != b.len() {
        assert(part.len() != b@.len());
        return false;
    }
    let mut i: usize = 0;
    while i < b.len()
        invariant
            i <= b@.len(),
            to - from == b@.len(),
            to <= a.len(),
            part == a@.subrange(from as int, to as int),
            forall|k: int| 0 <= k < i ==> part[k] == b@[k],
        decreases b@.len() - i,
    {
        if a[from + i] != b[i] {
            assert(part[i as int] != b@[i as int]);
            return false;
        }
        i = i + 1;
    }
    assert(part =~= b@);
    true
}

fn find_terminator(s: &[u8], from: usize) -> (end: Option<usize>)
    requires
        from <= s@.len(),
    ensures
        match (end, terminator(s@, from as int)) {
            (Some(a), Some(b)) => a == b && from <= a < s@.len(),
            (None, None) => true,
            _ => false,
        },
{
    let mut i: usize = from;
    while i < s.len()
        invariant
            from <= i <= s@.len(),
            terminator(s@, from as int) == terminator(s@, i as int),
        decreases s@.len() - i,
    {
        if s[i] == 0 {
            return Some(i);
        }
        i = i + 1;
    }
    None
}

fn find_in(symbols: &[u8], entry_size: usize, strings: &[u8], wanted: &[u8]) -> (r: Result<
    Option<u64>,
    ElfError,
>)
    requires
        entry_size >= SYMBOL_SIZE,
    ensures
        r == symbol_from(symbols@, entry_size as int, strings@, wanted@, 0),
{
    let ghost mut i: int = 0;
    let mut at: usize = 0;
    while entry_size <= symbols.len() - at
        invariant
            entry_size >= SYMBOL_SIZE,
            0 <= i,
            at == i * entry_size,
            at <= symbols@.len(),
            symbol_from(symbols@, entry_size as int, strings@, wanted@, 0) == symbol_from(
                symbols@,
                entry_size as int,
                strings@,
                wanted@,
                i,
            ),
        decreases symbols@.len() - at,
    {
        assert((i + 1) * entry_size == i * entry_size + entry_size) by (nonlinear_arith);
        let name: u64 = read_word(symbols, at, 4);
        if name > strings.len() as u64 {
            return Err(ElfError::NameOutsideStrings);
        }
        match find_terminator(strings, name as usize) {
            None => {
                return Err(ElfError::NameNotTerminated);
            },
            Some(end) => {
                if same_bytes(strings, name as usize, end, wanted) {
                    return Ok(Some(read_word(symbols, at + 8, 8)));
                }
            },
        }
        at = at + entry_size;
        proof {
            i = i + 1;
        }
    }
    assert((i + 1) * entry_size == i * entry_size + entry_size) by (nonlinear_arith);
    Ok(None)
}

impl<'a> Elf64<'a> {
    fn table_entry(&self, table: Table, index: usize, Ghost(minimum): Ghost<int>) -> (at: usize)
        requires
            table.within(self.bytes@.len(), minimum),
            index < table.entry_count,
        ensures
            at == table.at(index as int),
            at + minimum <= self.bytes@.len(),
    {
        proof {
            lemma_entry_within(table, self.bytes@.len(), minimum, index as int);
            assert(table.at(index as int) <= self.bytes.len());
        }
        table.offset + table.entry_size * index
    }

    fn section(&self, index: usize) -> (r: Result<Section, ElfError>)
        requires
            self.wf(),
        ensures
            r == if index < self.sections.entry_count {
                Ok(section_at(self.bytes@, self.sections.at(index as int)))
            } else {
                Err(ElfError::SectionOutOfRange)
            },
    {
        if index >= self.sections.entry_count {
            return Err(ElfError::SectionOutOfRange);
        }
        let at: usize = self.table_entry(
            self.sections,
            index,
            Ghost(SECTION_HEADER_SIZE as int),
        );
        assert(at + 64 <= self.bytes.len());
        Ok(
            Section {
                kind: read_word(self.bytes, at + 4, 4) as u32,
                offset: read_word(self.bytes, at + 24, 8),
                size: read_word(self.bytes, at + 32, 8),
                link: read_word(self.bytes, at + 40, 4) as u32,
                entry_size: read_word(self.bytes, at + 56, 8),
            },
        )
    }

    fn section_bytes(&self, section: &Section, part: Part) -> (r: Result<&'a [u8], ElfError>)
        ensures
            match (r, section_data(self.bytes@, *section, part)) {
                (Ok(a), Ok(b)) => a@ == b,
                (Err(a), Err(b)) => a == b,
                _ => false,
            },
    {
        if section.offset > usize::MAX as u64 {
            return Err(ElfError::OffsetTooLarge(part));
        }
        if section.size > usize::MAX as u64 {
            return Err(ElfError::SizeTooLarge(part));
        }
        match checked_file_range(
            self.bytes.len(),
            section.offset as usize,
            section.size as usize,
            part,
        ) {
            Err(e) => Err(e),
            Ok(range) => Ok(vstd::slice::slice_subrange(self.bytes, range.start, range.end)),
        }
    }

    /// Load the segments of the file into guest RAM.
    pub fn load_segments(&self, ram: &mut [u8]) -> (r: Result<(), ElfError>)
        requires
            self.wf(),
        ensures
            (final(ram)@, r) == segments_loaded(
                self.bytes@,
                self.programs,
                old(ram)@,
                self.programs.entry_count as int,
            ),
    {
        let mut index: usize = 0;
        while index < self.programs.entry_count
            invariant
                self.wf(),
                index <= self.programs.entry_count,
                ram@.len() == old(ram)@.len(),
                (ram@, Ok::<(), ElfError>(())) == segments_loaded(
                    self.bytes@,
                    self.programs,
                    old(ram)@,
                    index as int,
                ),
            decreases self.programs.entry_count - index,
        {
            let r = self.load_segment(index, ram);
            match r {
                Err(e) => {
                    proof {
                        lemma_segments_stop(
                            self.bytes@,
                            self.programs,
                            old(ram)@,
                            index + 1,
                            self.programs.entry_count as int,
                        );
                    }
                    return Err(e);
                },
                Ok(_) => {},
            }
            index = index + 1;
        }
        Ok(())
    }

    fn load_segment(&self, index: usize, ram: &mut [u8]) -> (r: Result<(), ElfError>)
        requires
            self.wf(),
            index < self.programs.entry_count,
        ensures
            match (
                r,
                segment_at(
                    self.bytes@,
                    self.programs.at(index as int),
                    index as int,
                    old(ram)@.len(),
                ),
            ) {
                (Ok(_), Ok(None)) => final(ram)@ == old(ram)@,
                (Ok(_), Ok(Some(s))) => final(ram)@ == placed(old(ram)@, self.bytes@, s),
                (Err(a), Err(b)) => a == b && final(ram)@ == old(ram)@,
                _ => false,
            },
    {
        let header: usize = self.table_entry(
            self.programs,
            index,
            Ghost(PROGRAM_HEADER_SIZE as int),
        );
        assert(header + 56 <= self.bytes.len());
        if read_word(self.bytes, header, 4) != PT_LOAD as u64 {
            return Ok(());
        }
        let file_offset: u64 = read_word(self.bytes, header + 8, 8);
        let physical_address: u64 = read_word(self.bytes, header + 24, 8);
        let file_size: u64 = read_word(self.bytes, header + 32, 8);
        let memory_size: u64 = read_word(self.bytes, header + 40, 8);
        if file_size > memory_size {
            return Err(ElfError::FileLargerThanMemory(index));
        }
        if file_offset > usize::MAX as u64 {
            return Err(ElfError::SegmentOffsetTooLarge(index));
        }
        if file_size > usize::MAX as u64 {
            return Err(ElfError::SegmentFileTooLarge(index));
        }
        let source = match checked_file_range(
            self.bytes.len(),
            file_offset as usize,
            file_size as usize,
            Part::Segment,
        ) {
            Ok(range) => range,
            Err(e) => {
                return Err(e);
            },
        };
        if memory_size > usize::MAX as u64 {
            return Err(ElfError::SegmentMemoryTooLarge(index));
        }
        let destination = match checked_ram_range(
            ram.len(),
            RAM_BASE,
            physical_address,
            memory_size as usize,
        ) {
            Some(range) => range,
            None => {
                return Err(ElfError::SegmentOutsideRam(index));
            },
        };
        let data: &[u8] = vstd::slice::slice_subrange(self.bytes, source.start, source.end);
        write_at(ram, destination.start, data);
        let mut zeros: Vec<u8> = Vec::new();
        push_zeros(&mut zeros, (memory_size - file_size) as usize);
        let file_end: usize = destination.start + file_size as usize;
        write_at(ram, file_end, zeros.as_slice());
        proof {
            let s = segment_at(
                self.bytes@,
                self.programs.at(index as int),
                index as int,
                old(ram)@.len(),
            )->Ok_0->0;
            assert(ram@ =~= placed(old(ram)@, self.bytes@, s));
        }
        Ok(())
    }

    /// The value of the first symbol named `wanted`.
    pub fn find_symbol(&self, wanted: &str) -> (r: Result<Option<u64>, ElfError>)
        requires
            self.wf(),
        ensures
            r == symbol_of(self.bytes@, self.sections, wanted.spec_bytes(), 0),
    {
        let mut index: usize = 0;
        while index < self.sections.entry_count
            invariant
                self.wf(),
                index <= self.sections.entry_count,
                symbol_of(self.bytes@, self.sections, wanted.spec_bytes(), 0) == symbol_of(
                    self.bytes@,
                    self.sections,
                    wanted.spec_bytes(),
                    index as int,
                ),
            decreases self.sections.entry_count - index,
        {
            match self.find_in_section(index, wanted) {
                Ok(None) => {},
                found => {
                    return found;
                },
            }
            index = index + 1;
        }
        Ok(None)
    }

    fn find_in_section(&self, index: usize, wanted: &str) -> (r: Result<Option<u64>, ElfError>)
        requires
            self.wf(),
            index < self.sections.entry_count,
        ensures
            r == symbol_in(self.bytes@, self.sections, index as int, wanted.spec_bytes()),
    {
        let symbols = match self.section(index) {
            Ok(section) => section,
            Err(e) => {
                return Err(e);
            },
        };
        if symbols.kind != SHT_SYMTAB {
            return Ok(None);
        }
        if symbols.entry_size > usize::MAX as u64 {
            return Err(ElfError::SymbolEntryTooLarge);
        }
        if symbols.entry_size < SYMBOL_SIZE as u64 || symbols.size % symbols.entry_size != 0 {
            return Err(ElfError::SymbolEntryInvalid);
        }
        let strings = match self.section(symbols.link as usize) {
            Ok(section) => section,
            Err(e) => {
                return Err(e);
            },
        };
        if strings.kind != SHT_STRTAB {
            return Err(ElfError::NoStringTable);
        }
        let symbol_bytes = match self.section_bytes(&symbols, Part::Symbols) {
            Ok(bytes) => bytes,
            Err(e) => {
                return Err(e);
            },
        };
        let string_bytes = match self.section_bytes(&strings, Part::Strings) {
            Ok(bytes) => bytes,
            Err(e) => {
                return Err(e);
            },
        };
        find_in(symbol_bytes, symbols.entry_size as usize, string_bytes, wanted.as_bytes())
    }
}

// ---- a test --------------------------------------------------------------

/// Where a test starts and where it reports.
#[derive(Debug, Clone, Copy, PartialEq, Eq)]
pub struct TestImage {
    pub entry: u64,
    pub tohost: u64,
    pub signature: Option<(u64, u64)>,
}

/// Whether `len` bytes at `addr` are in guest RAM.
pub open spec fn in_guest_ram(ram_len: nat, addr: u64, len: int) -> bool {
    RAM_BASE <= addr && addr - RAM_BASE + len <= ram_len
}

/// The test in a file, or the first error.
pub open spec fn test_of(bytes: Seq<u8>, ram_len: nat) -> Result<TestImage, ElfError> {
    let sections = tables_of(bytes)->Ok_0.1;
    let entry = word(bytes, 24, 8) as u64;
    match symbol_of(bytes, sections, "tohost".spec_bytes(), 0) {
        Err(e) => Err(e),
        Ok(None) => Err(ElfError::NoTohost),
        Ok(Some(tohost)) => if !in_guest_ram(ram_len, entry, 1) {
            Err(ElfError::EntryOutsideRam)
        } else if !in_guest_ram(ram_len, tohost, 8) {
            Err(ElfError::TohostOutsideRam)
        } else {
            match symbol_of(bytes, sections, "begin_signature".spec_bytes(), 0) {
                Err(e) => Err(e),
                Ok(begin) => match symbol_of(bytes, sections, "end_signature".spec_bytes(), 0) {
                    Err(e) => Err(e),
                    Ok(end) => Ok(
                        TestImage {
                            entry,
                            tohost,
                            signature: match (begin, end) {
                                (Some(begin), Some(end)) => Some((begin, end)),
                                _ => None,
                            },
                        },
                    ),
                },
            }
        },
    }
}

/// Load PT_LOAD segments into physical RAM and resolve the test result slot.
pub fn load_test(elf: &[u8], ram: &mut [u8]) -> (r: Result<TestImage, ElfError>)
    ensures
        match tables_of(elf@) {
            Err(e) => r == Err::<TestImage, ElfError>(e) && final(ram)@ == old(ram)@,
            Ok((programs, _)) => {
                let (after, loaded) = segments_loaded(
                    elf@,
                    programs,
                    old(ram)@,
                    programs.entry_count as int,
                );
                &&& final(ram)@ == after
                &&& r == match loaded {
                    Err(e) => Err(e),
                    Ok(_) => test_of(elf@, old(ram)@.len()),
                }
            },
        },
{
    let file = match Elf64::parse(elf) {
        Ok(file) => file,
        Err(e) => {
            return Err(e);
        },
    };
    match file.load_segments(ram) {
        Ok(_) => {},
        Err(e) => {
            return Err(e);
        },
    }
    proof {
        lemma_segments_len(elf@, file.programs, old(ram)@, file.programs.entry_count as int);
    }
    let tohost: u64 = match file.find_symbol("tohost") {
        Ok(Some(tohost)) => tohost,
        Ok(None) => {
            return Err(ElfError::NoTohost);
        },
        Err(e) => {
            return Err(e);
        },
    };
    if checked_ram_range(ram.len(), RAM_BASE, file.entry, 1).is_none() {
        return Err(ElfError::EntryOutsideRam);
    }
    if checked_ram_range(ram.len(), RAM_BASE, tohost, 8).is_none() {
        return Err(ElfError::TohostOutsideRam);
    }
    let begin: Option<u64> = match file.find_symbol("begin_signature") {
        Ok(begin) => begin,
        Err(e) => {
            return Err(e);
        },
    };
    let end: Option<u64> = match file.find_symbol("end_signature") {
        Ok(end) => end,
        Err(e) => {
            return Err(e);
        },
    };
    let signature: Option<(u64, u64)> = match (begin, end) {
        (Some(begin), Some(end)) => Some((begin, end)),
        _ => None,
    };
    Ok(TestImage { entry: file.entry, tohost, signature })
}

proof fn lemma_segments_len(bytes: Seq<u8>, programs: Table, ram: Seq<u8>, n: int)
    ensures
        segments_loaded(bytes, programs, ram, n).0.len() == ram.len(),
    decreases n,
{
    if n > 0 {
        lemma_segments_len(bytes, programs, ram, n - 1);
    }
}

/// The result that a test reports, if it has: an odd word is a result.
pub fn captured_result(ram: &[u8], tohost: u64) -> (result: Option<u64>)
    requires
        in_guest_ram(ram@.len(), tohost, 8),
    ensures
        result == ({
            let v = word(ram@, tohost - RAM_BASE, 8) as u64;
            if v % 2 == 1 {
                Some((v / 2) as u64)
            } else {
                None
            }
        }),
{
    assert(tohost - RAM_BASE + 8 <= ram.len());
    let value: u64 = read_word(ram, (tohost - RAM_BASE) as usize, 8);
    if value % 2 == 1 {
        Some(value / 2)
    } else {
        None
    }
}

/// Instructions that a test may take while every one of them is logged.
pub const LOGGED_STEPS: u64 = 60_000_000;

/// Slices that a test may take otherwise, and the instructions of each.
pub const SLICES: u64 = 200;

pub const SLICE_STEPS: u64 = 1_000_000;

/// What becomes of a test.
#[derive(Debug, Clone, Copy, PartialEq, Eq, Structural)]
pub enum IsaVerdict {
    Passed,
    /// The case that failed.
    Failed(u64),
    TimedOut,
}

/// What becomes of a test after `done` of the `limit` turns that it may take, in
/// which it reported `result`: a test ends when it reports one, and zero means
/// that it passed. `None` while it goes on.
pub fn isa_step(done: u64, limit: u64, result: Option<u64>) -> (verdict: Option<IsaVerdict>)
    ensures
        verdict == match result {
            Some(case) => Some(
                if case == 0 {
                    IsaVerdict::Passed
                } else {
                    IsaVerdict::Failed(case)
                },
            ),
            None => if done >= limit {
                Some(IsaVerdict::TimedOut)
            } else {
                None
            },
        },
{
    match result {
        Some(case) => if case == 0 {
            Some(IsaVerdict::Passed)
        } else {
            Some(IsaVerdict::Failed(case))
        },
        None => if done >= limit {
            Some(IsaVerdict::TimedOut)
        } else {
            None
        },
    }
}

/// Where the signature of a test lies in RAM: a whole number of words.
pub fn signature_range(ram_len: usize, begin: u64, end: u64) -> (range: Option<
    core::ops::Range<usize>,
>)
    ensures
        range is Some <==> begin <= end && in_guest_ram(ram_len as nat, begin, end - begin) && (end
            - begin) % 4 == 0,
        range matches Some(r) ==> r.start == begin - RAM_BASE && r.end == end - RAM_BASE,
{
    if end < begin {
        return None;
    }
    let size: u64 = end - begin;
    if size > usize::MAX as u64 || size % 4 != 0 {
        return None;
    }
    checked_ram_range(ram_len, RAM_BASE, begin, size as usize)
}

/// The low `n` hexadecimal digits of `v`.
pub open spec fn hex_digits(v: nat, n: nat) -> Seq<u8>
    decreases n,
{
    if n == 0 {
        Seq::empty()
    } else {
        hex_digits(v / 16, (n - 1) as nat).push(hex_digit(v % 16))
    }
}

/// The dump of `n` words: each in eight lower-case hexadecimal digits on a line
/// of its own.
pub open spec fn signature_lines(ram: Seq<u8>, start: int, n: int) -> Seq<u8>
    decreases n,
{
    if n <= 0 {
        Seq::empty()
    } else {
        signature_lines(ram, start, n - 1) + hex_digits(word(ram, start + 4 * (n - 1), 4), 8).push(
            10,
        )
    }
}

fn push_hex_digits(out: &mut Vec<u8>, v: u64, n: usize)
    ensures
        final(out)@ == old(out)@ + hex_digits(v as nat, n as nat),
    decreases n,
{
    if n > 0 {
        push_hex_digits(out, v / 16, n - 1);
        let d: u8 = (v % 16) as u8;
        if d < 10 {
            out.push(48 + d);
        } else {
            out.push(87 + d);
        }
    }
    assert(out@ =~= old(out)@ + hex_digits(v as nat, n as nat));
}

/// The signature of a test as text (4 bytes per line, lowercase hex).
pub fn signature_text(ram: &[u8], start: usize, end: usize) -> (out: Vec<u8>)
    requires
        start <= end <= ram@.len(),
        (end - start) % 4 == 0,
    ensures
        out@ == signature_lines(ram@, start as int, (end - start) / 4),
{
    let mut out: Vec<u8> = Vec::new();
    let mut at: usize = start;
    while at < end
        invariant
            start <= at <= end <= ram.len(),
            (end - start) % 4 == 0,
            (at - start) % 4 == 0,
            out@ == signature_lines(ram@, start as int, (at - start) / 4),
        decreases end - at,
    {
        let ghost before = out@;
        let v: u64 = read_word(ram, at, 4);
        push_hex_digits(&mut out, v, 8);
        out.push(10);
        assert(out@ =~= before + hex_digits(v as nat, 8).push(10));
        assert(start + 4 * ((at - start) / 4) == at);
        at = at + 4;
    }
    out
}

// ---- commit traces -------------------------------------------------------

/// An instruction as it is fetched.
#[derive(Debug, Clone, Copy, PartialEq, Eq, Structural)]
pub enum Fetched {
    Full(u32),
    Compressed(u16),
}

/// The instruction at `pc`, where four bytes of RAM are there.
pub fn fetched_at(ram: &[u8], pc: u64) -> (insn: Option<Fetched>)
    ensures
        insn == if !in_guest_ram(ram@.len(), pc, 4) {
            None
        } else if word(ram@, pc - RAM_BASE, 2) % 4 == 3 {
            Some(Fetched::Full(word(ram@, pc - RAM_BASE, 4) as u32))
        } else {
            Some(Fetched::Compressed(word(ram@, pc - RAM_BASE, 2) as u16))
        },
{
    match checked_ram_range(ram.len(), RAM_BASE, pc, 4) {
        None => None,
        Some(range) => {
            let low: u64 = read_word(ram, range.start, 2);
            if low % 4 == 3 {
                Some(Fetched::Full(read_word(ram, range.start, 4) as u32))
            } else {
                Some(Fetched::Compressed(low as u16))
            }
        },
    }
}

/// Whether an instruction names an x-register that it writes.
pub open spec fn writes_x(insn: u32) -> bool {
    let opcode = insn % 128;
    let funct3 = insn / 4096 % 8;
    let funct7 = insn / 0x200_0000;
    ||| opcode == 0x37 || opcode == 0x17 || opcode == 0x6f || opcode == 0x67 || opcode == 0x03
    ||| opcode == 0x13 || opcode == 0x33 || opcode == 0x1b || opcode == 0x3b || opcode == 0x2f
    ||| opcode == 0x73 && funct3 != 0 && funct3 != 4
    ||| opcode == 0x53 && (funct7 == 0x50 || funct7 == 0x51 || funct7 == 0x60 || funct7 == 0x61
        || funct7 == 0x70 || funct7 == 0x71)
}

/// If the instruction architecturally writes a non-zero x-register, that
/// register.
pub fn insn_x_dest(insn: u32) -> (dest: Option<usize>)
    ensures
        dest == if writes_x(insn) && insn / 128 % 32 != 0 {
            Some((insn / 128 % 32) as usize)
        } else {
            None
        },
{
    let opcode: u32 = insn % 128;
    let funct3: u32 = insn / 4096 % 8;
    let funct7: u32 = insn / 0x200_0000;
    let writes: bool = match opcode {
        0x37 | 0x17 | 0x6f | 0x67 | 0x03 | 0x13 | 0x33 | 0x1b | 0x3b | 0x2f => true,
        0x73 => funct3 != 0 && funct3 != 4,  // CSR ops
        // OP-FP forms whose destination is an x-register:
        // fcmp (0x50/0x51), fcvt.int.fmt (0x60/0x61), fmv.x/fclass (0x70/0x71)
        0x53 => matches!(funct7, 0x50 | 0x51 | 0x60 | 0x61 | 0x70 | 0x71),
        _ => false,
    };
    let rd: u32 = insn / 128 % 32;
    if writes && rd != 0 {
        Some(rd as usize)
    } else {
        None
    }
}

// ---- laws ----------------------------------------------------------------

/// Loading changes no byte of RAM outside the segments: a byte that no load
/// segment covers keeps its value.
pub proof fn law_bytes_outside_segments_stay(
    bytes: Seq<u8>,
    programs: Table,
    ram: Seq<u8>,
    n: int,
    i: int,
)
    requires
        0 <= i < ram.len(),
        forall|k: int|
            0 <= k < n ==> ((#[trigger] segment_at(bytes, programs.at(k), k, ram.len())) matches Ok(
                Some(s),
            ) ==> !(s.address - RAM_BASE <= i < s.address - RAM_BASE + s.memory_size)),
    ensures
        segments_loaded(bytes, programs, ram, n).0[i] == ram[i],
    decreases n,
{
    if n > 0 {
        law_bytes_outside_segments_stay(bytes, programs, ram, n - 1, i);
        lemma_segments_len(bytes, programs, ram, n - 1);
    }
}

/// A segment's bytes in RAM are those of the file, and the tail that the file
/// does not hold is zero.
pub proof fn law_segment_tail_is_zero(ram: Seq<u8>, bytes: Seq<u8>, at: int, index: int, k: int)
    requires
        segment_at(bytes, at, index, ram.len()) matches Ok(Some(s)) && 0 <= k < s.memory_size,
    ensures
        ({
            let s = segment_at(bytes, at, index, ram.len())->Ok_0->0;
            placed(ram, bytes, s)[s.address - RAM_BASE + k] == if k < s.file_size {
                bytes[s.file_offset + k]
            } else {
                0
            }
        }),
{
}

} // verus!
