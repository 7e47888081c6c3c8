//! Loading of ISA conformance programs.

use rv64_system::elf::{
    captured_result, fetched_at, insn_x_dest, isa_step, load_test, signature_range, signature_text,
    ElfError, Fetched, IsaVerdict, Part, PROGRAM_HEADER_SIZE, PT_LOAD, SECTION_HEADER_SIZE, SHT_STRTAB,
    SHT_SYMTAB, SLICES, SYMBOL_SIZE,
};
use rv64_system::RAM_BASE;

fn write_u16(bytes: &mut [u8], offset: usize, value: u16) {
    bytes[offset..offset + 2].copy_from_slice(&value.to_le_bytes());
}

fn write_u32(bytes: &mut [u8], offset: usize, value: u32) {
    bytes[offset..offset + 4].copy_from_slice(&value.to_le_bytes());
}

fn write_u64(bytes: &mut [u8], offset: usize, value: u64) {
    bytes[offset..offset + 8].copy_from_slice(&value.to_le_bytes());
}

fn test_elf() -> Vec<u8> {
    const PROGRAMS: usize = 0x40;
    const SECTIONS: usize = 0x100;
    const SEGMENT: usize = 0x300;
    const SYMBOLS: usize = 0x320;
    const STRINGS: usize = 0x350;

    let mut elf = vec![0; 0x380];
    elf[..6].copy_from_slice(b"\x7fELF\x02\x01");
    write_u64(&mut elf, 24, RAM_BASE);
    write_u64(&mut elf, 32, PROGRAMS as u64);
    write_u64(&mut elf, 40, SECTIONS as u64);
    write_u16(&mut elf, 54, PROGRAM_HEADER_SIZE as u16);
    write_u16(&mut elf, 56, 1);
    write_u16(&mut elf, 58, SECTION_HEADER_SIZE as u16);
    write_u16(&mut elf, 60, 3);

    write_u32(&mut elf, PROGRAMS, PT_LOAD);
    write_u64(&mut elf, PROGRAMS + 8, SEGMENT as u64);
    write_u64(&mut elf, PROGRAMS + 24, RAM_BASE);
    write_u64(&mut elf, PROGRAMS + 32, 4);
    write_u64(&mut elf, PROGRAMS + 40, 16);
    elf[SEGMENT..SEGMENT + 4].copy_from_slice(&[1, 2, 3, 4]);

    let symtab = SECTIONS + SECTION_HEADER_SIZE;
    write_u32(&mut elf, symtab + 4, SHT_SYMTAB);
    write_u64(&mut elf, symtab + 24, SYMBOLS as u64);
    write_u64(&mut elf, symtab + 32, (2 * SYMBOL_SIZE) as u64);
    write_u32(&mut elf, symtab + 40, 2);
    write_u64(&mut elf, symtab + 56, SYMBOL_SIZE as u64);

    let strtab = SECTIONS + 2 * SECTION_HEADER_SIZE;
    write_u32(&mut elf, strtab + 4, SHT_STRTAB);
    write_u64(&mut elf, strtab + 24, STRINGS as u64);
    write_u64(&mut elf, strtab + 32, 8);
    elf[STRINGS..STRINGS + 8].copy_from_slice(b"\0tohost\0");

    let tohost = SYMBOLS + SYMBOL_SIZE;
    write_u32(&mut elf, tohost, 1);
    write_u64(&mut elf, tohost + 8, RAM_BASE + 8);
    elf
}

#[test]
fn loader_uses_symbol_table_link_and_zero_fills_segment_tail() {
    let elf = test_elf();
    let mut ram = vec![0xff; 64];
    let image = load_test(&elf, &mut ram).expect("valid test ELF");

    assert_eq!(image.entry, RAM_BASE);
    assert_eq!(image.tohost, RAM_BASE + 8);
    assert_eq!(&ram[..4], &[1, 2, 3, 4]);
    assert_eq!(&ram[4..16], &[0; 12]);
}

#[test]
fn loader_rejects_truncated_input_without_panicking() {
    let mut ram = vec![0; 64];
    assert!(load_test(&[], &mut ram).is_err());

    let mut elf = test_elf();
    elf.truncate(0x302);
    assert!(load_test(&elf, &mut ram).is_err());
}

#[test]
fn loader_refuses_each_malformed_part() {
    let mut ram = vec![0; 64];
    let good = test_elf();

    let mut elf = good.clone();
    elf[0] = 0;
    assert_eq!(load_test(&elf, &mut ram).unwrap_err(), ElfError::NotElf);

    let mut elf = good.clone();
    elf[4] = 1;
    assert_eq!(load_test(&elf, &mut ram).unwrap_err(), ElfError::WrongFormat);

    let mut elf = good.clone();
    write_u16(&mut elf, 54, 8);
    assert_eq!(
        load_test(&elf, &mut ram).unwrap_err(),
        ElfError::EntriesTooSmall(Part::Programs)
    );

    let mut elf = good.clone();
    write_u64(&mut elf, 40, 0x1_0000);
    assert_eq!(load_test(&elf, &mut ram).unwrap_err(), ElfError::Truncated(Part::Sections));

    let mut elf = good.clone();
    write_u64(&mut elf, 40, u64::MAX - 8);
    assert_eq!(load_test(&elf, &mut ram).unwrap_err(), ElfError::RangeOverflows(Part::Sections));

    let mut elf = good.clone();
    write_u64(&mut elf, 0x40 + 32, 17);
    assert_eq!(load_test(&elf, &mut ram).unwrap_err(), ElfError::FileLargerThanMemory(0));

    let mut elf = good.clone();
    write_u64(&mut elf, 0x40 + 24, RAM_BASE - 1);
    assert_eq!(load_test(&elf, &mut ram).unwrap_err(), ElfError::SegmentOutsideRam(0));

    let mut elf = good.clone();
    write_u64(&mut elf, 0x140 + 56, 25);
    assert_eq!(load_test(&elf, &mut ram).unwrap_err(), ElfError::SymbolEntryInvalid);

    let mut elf = good.clone();
    write_u32(&mut elf, 0x140 + 40, 9);
    assert_eq!(load_test(&elf, &mut ram).unwrap_err(), ElfError::SectionOutOfRange);

    let mut elf = good.clone();
    write_u32(&mut elf, 0x140 + 40, 1);
    assert_eq!(load_test(&elf, &mut ram).unwrap_err(), ElfError::NoStringTable);

    let mut elf = good.clone();
    write_u32(&mut elf, 0x320 + 24, 9);
    assert_eq!(load_test(&elf, &mut ram).unwrap_err(), ElfError::NameOutsideStrings);

    let mut elf = good.clone();
    elf[0x357] = b'x';
    assert_eq!(load_test(&elf, &mut ram).unwrap_err(), ElfError::NameNotTerminated);

    let mut elf = good.clone();
    elf[0x351] = b'x';
    assert_eq!(load_test(&elf, &mut ram).unwrap_err(), ElfError::NoTohost);

    let mut elf = good.clone();
    write_u64(&mut elf, 24, RAM_BASE + 64);
    assert_eq!(load_test(&elf, &mut ram).unwrap_err(), ElfError::EntryOutsideRam);

    let mut elf = good.clone();
    write_u64(&mut elf, 0x320 + 24 + 8, RAM_BASE + 57);
    assert_eq!(load_test(&elf, &mut ram).unwrap_err(), ElfError::TohostOutsideRam);

    assert_eq!(load_test(&good[..63], &mut ram).unwrap_err(), ElfError::HeaderTruncated);
}

#[test]
fn errors_read_as_sentences() {
    assert_eq!(ElfError::NotElf.message(), b"not an ELF file");
    assert_eq!(
        ElfError::Truncated(Part::Symbols).message(),
        b"symbol table is truncated"
    );
    assert_eq!(
        ElfError::SegmentOutsideRam(12).message(),
        b"load segment 12 lies outside guest RAM"
    );
}

#[test]
fn results_and_signatures_are_read_from_ram() {
    let mut ram = vec![0u8; 64];
    assert_eq!(captured_result(&ram, RAM_BASE + 8), None);
    write_u64(&mut ram, 8, 1);
    assert_eq!(captured_result(&ram, RAM_BASE + 8), Some(0));
    write_u64(&mut ram, 8, (5 << 1) | 1);
    assert_eq!(captured_result(&ram, RAM_BASE + 8), Some(5));

    assert_eq!(signature_range(64, RAM_BASE + 8, RAM_BASE + 16), Some(8..16));
    assert_eq!(signature_range(64, RAM_BASE + 16, RAM_BASE + 8), None);
    assert_eq!(signature_range(64, RAM_BASE + 8, RAM_BASE + 14), None);
    assert_eq!(signature_range(64, RAM_BASE + 8, RAM_BASE + 72), None);
    write_u32(&mut ram, 12, 0xdead_beef);
    assert_eq!(signature_text(&ram, 8, 16), b"0000000b\ndeadbeef\n");
}

#[test]
fn a_test_ends_when_it_reports_or_runs_out_of_turns() {
    assert_eq!(isa_step(0, SLICES, None), None);
    assert_eq!(isa_step(199, SLICES, None), None);
    assert_eq!(isa_step(200, SLICES, None), Some(IsaVerdict::TimedOut));
    assert_eq!(isa_step(200, SLICES, Some(0)), Some(IsaVerdict::Passed));
    assert_eq!(isa_step(1, SLICES, Some(5)), Some(IsaVerdict::Failed(5)));
}

#[test]
fn destination_registers_follow_the_opcode() {
    assert_eq!(insn_x_dest(0x0000_0513), Some(10)); // addi a0, x0, 0
    assert_eq!(insn_x_dest(0x0000_0013), None); // addi x0, x0, 0
    assert_eq!(insn_x_dest(0x00b5_2023), None); // sw a1, 0(a0)
    assert_eq!(insn_x_dest(0x0000_0073), None); // ecall
    assert_eq!(insn_x_dest(0x3000_2573), Some(10)); // csrr a0, mstatus
    assert_eq!(insn_x_dest(0xe000_0553), Some(10)); // fmv.x.w a0, ft0
    assert_eq!(insn_x_dest(0x0000_0553), None); // fadd.s fa0, ft0, ft0

    let ram = [0x13, 0x05, 0x00, 0x00, 0x01, 0x45, 0, 0];
    assert_eq!(fetched_at(&ram, RAM_BASE), Some(Fetched::Full(0x0000_0513)));
    assert_eq!(fetched_at(&ram, RAM_BASE + 4), Some(Fetched::Compressed(0x4501)));
    assert_eq!(fetched_at(&ram, RAM_BASE + 5), None);
    assert_eq!(fetched_at(&ram, RAM_BASE - 1), None);
}
