//! Boot, SBI, slices and the decoded-page cache, driven by a tiny hart that
//! knows the few instructions of the programs below.

use rv64_system::board::build_virt_fdt;
use rv64_system::boot::{VirtImages, KERNEL_OFFSET};
use rv64_system::bus::{BusRead, BusWrite, IRQ_SEIP, IRQ_SSIP, IRQ_STIP};
use rv64_system::codecache::{
    fetch_is_cacheable, stretch_len, CachedRun, CodeDispatch, CodePageCache, StretchEnd,
    CODE_PAGE_HALFWORDS,
};
use rv64_system::machine::{Mode, SliceAction, SliceStop, VirtMachine};
use rv64_system::{RunSliceOutcome, RAM_BASE};

fn contains_bytes(haystack: &[u8], needle: &[u8]) -> bool {
    haystack.windows(needle.len()).any(|window| window == needle)
}

#[test]
fn virt_fdt_uses_structured_isa_properties() {
    let fdt = build_virt_fdt(512 << 20, "console=ttyS0", 0, 0, 2);
    assert!(contains_bytes(&fdt, b"riscv,isa-base\0"));
    assert!(contains_bytes(&fdt, b"riscv,isa-extensions\0"));
    assert!(contains_bytes(&fdt, b"i\0m\0a\0f\0d\0c\0zicntr\0zicsr\0zifencei\0"));
}

fn direct_machine() -> VirtMachine {
    VirtMachine::new_direct(
        8 << 20,
        VirtImages {
            opensbi: &[],
            kernel: &[],
            cmdline: "console=ttyS0",
            initrd: None,
            disk: None,
            external_disk_size: None,
            net: None,
        },
    )
}

fn write_program(machine: &mut VirtMachine, instructions: &[u32]) {
    let start = KERNEL_OFFSET as usize;
    for (index, instruction) in instructions.iter().enumerate() {
        let offset = start + index * 4;
        machine.bus.ram[offset..offset + 4].copy_from_slice(&instruction.to_le_bytes());
    }
}

#[derive(Default)]
struct TestDispatch {
    compiled: Option<u64>,
    observed: Vec<u64>,
}

impl CodeDispatch for TestDispatch {
    fn valid(&self) -> bool {
        true
    }

    fn compiled(&self, pc: u64) -> bool {
        self.compiled == Some(pc)
    }

    fn reached(&self, pc: u64, stop: bool, now: &Self) -> bool {
        stop == (self.compiled == Some(pc))
            && now.compiled == self.compiled
            && now.observed.last() == Some(&pc)
    }

    fn contains(&self, pc: u64) -> bool {
        self.compiled == Some(pc)
    }

    fn observe(&mut self, pc: u64) -> bool {
        self.observed.push(pc);
        self.contains(pc)
    }
}

/// What one instruction did.
enum Step {
    Next,
    Trapped,
    Stopped(SliceStop),
}

/// A hart with `addi`, `ld`, `beq`, `ecall`, `wfi`, `fence` and `fence.i`.
#[derive(Default)]
struct TinyHart {
    stvec: u64,
    load_faults: u64,
    interrupt: bool,
}

impl TinyHart {
    fn step(&mut self, machine: &mut VirtMachine, word: u32) -> Step {
        if self.interrupt {
            self.interrupt = false;
            machine.cpu.pc = self.stvec;
            return Step::Next;
        }
        let rd = (word >> 7 & 31) as usize;
        let rs1 = (word >> 15 & 31) as usize;
        let rs2 = (word >> 20 & 31) as usize;
        let imm = (word as i32 >> 20) as u64;
        let cpu = &mut machine.cpu;
        match word & 0x7f {
            0x13 => {
                if rd != 0 {
                    cpu.x[rd] = cpu.x[rs1].wrapping_add(imm);
                }
            }
            0x03 => {
                let address = cpu.x[rs1].wrapping_add(imm);
                match machine.bus.read(address, 8) {
                    BusRead::Value(value) => machine.cpu.x[rd] = value,
                    _ => {
                        self.load_faults += 1;
                        machine.cpu.pc = self.stvec;
                        return Step::Trapped;
                    }
                }
            }
            0x0f => {
                if word >> 12 & 7 == 1 {
                    cpu.icache_gen += 1;
                }
            }
            0x63 => {
                if cpu.x[rs1] == cpu.x[rs2] {
                    cpu.pc += u64::from(word >> 8 & 15) * 2;
                    cpu.insn_count += 1;
                    return Step::Next;
                }
            }
            0x73 => {
                cpu.pc += 4;
                cpu.insn_count += 1;
                return Step::Stopped(if word == 0x73 { SliceStop::Ecall } else { SliceStop::Wfi });
            }
            _ => return Step::Stopped(SliceStop::Other),
        }
        machine.cpu.pc += 4;
        machine.cpu.insn_count += 1;
        Step::Next
    }

    fn fetch(machine: &VirtMachine) -> u32 {
        let at = (machine.cpu.pc - RAM_BASE) as usize;
        u32::from_le_bytes(machine.bus.ram[at..at + 4].try_into().unwrap())
    }

    fn run(
        &mut self,
        machine: &mut VirtMachine,
        max: u64,
        compiled: &mut dyn FnMut(u64) -> bool,
    ) -> SliceStop {
        for _ in 0..max {
            let word = TinyHart::fetch(machine);
            match self.step(machine, word) {
                Step::Stopped(stop) => return stop,
                Step::Next | Step::Trapped => {
                    if compiled(machine.cpu.pc) {
                        return SliceStop::Compiled;
                    }
                }
            }
        }
        SliceStop::Budget
    }

    fn run_cached(
        &mut self,
        machine: &mut VirtMachine,
        cache: &mut CodePageCache,
        max: u64,
        dispatch: &mut TestDispatch,
        stop_capable: bool,
    ) -> SliceStop {
        let mut run = CachedRun::begin(machine.cpu.insn_count, max);
        loop {
            let pc = machine.cpu.pc;
            let before = machine.cpu.insn_count;
            let remaining = match run.next(dispatch, pc, before) {
                Ok(remaining) => remaining,
                Err(stop) => return stop,
            };
            let block = if fetch_is_cacheable(pc, pc, machine.bus.ram.len()) {
                let page = ((pc - RAM_BASE) & !0xfff) as usize;
                let ends = block_ends(&machine.bus.ram[page..page + 4096]);
                cache.block(&machine.bus.ram, &ends, pc, machine.cpu.icache_gen)
            } else {
                None
            };
            let Some(block) = block else {
                let word = TinyHart::fetch(machine);
                let stop = match self.step(machine, word) {
                    Step::Stopped(stop) => stop,
                    Step::Next | Step::Trapped => SliceStop::Budget,
                };
                if let Some(stop) = run.ended_one(stop, machine.cpu.insn_count - before) {
                    return stop;
                }
                continue;
            };
            let count = stretch_len(dispatch, &block, pc, remaining, stop_capable);
            let mut end = StretchEnd::Ran;
            let mut next = pc;
            for insn in &block[..count] {
                next += insn.byte_len();
                match self.step(machine, insn.word) {
                    Step::Stopped(stop) => end = StretchEnd::Stopped(stop),
                    Step::Trapped => end = StretchEnd::Trapped,
                    Step::Next if machine.cpu.pc == next => continue,
                    Step::Next => {}
                }
                break;
            }
            if let Some(stop) = run.ended(end, machine.cpu.insn_count - before) {
                return stop;
            }
        }
    }
}

fn block_ends(page: &[u8]) -> Vec<bool> {
    let mut ends = vec![false; CODE_PAGE_HALFWORDS];
    for (slot, end) in ends.iter_mut().enumerate() {
        *end = matches!(page[slot * 2] & 0x7f, 0x63 | 0x73 | 0x0f);
    }
    ends
}

fn run_slice_until_outcome(
    machine: &mut VirtMachine,
    max: u64,
    mut compiled: impl FnMut(u64) -> bool,
) -> RunSliceOutcome {
    let mut hart = TinyHart::default();
    let (mut slice, mut action) = machine.begin_slice(max, true);
    loop {
        let step = match action {
            SliceAction::Run(budget) => {
                let stop = hart.run(machine, budget, &mut compiled);
                machine.slice_stopped(slice, stop)
            }
            SliceAction::Ask(pc) => {
                let stop = compiled(pc);
                machine.slice_asked(slice, stop)
            }
            SliceAction::Done(outcome) => return outcome,
        };
        slice = step.0;
        action = step.1;
    }
}

fn run_slice_until(
    machine: &mut VirtMachine,
    max: u64,
    compiled: impl FnMut(u64) -> bool,
) -> u64 {
    run_slice_until_outcome(machine, max, compiled).retired
}

fn run_cached_slice_outcome(
    machine: &mut VirtMachine,
    hart: &mut TinyHart,
    cache: &mut CodePageCache,
    max: u64,
    dispatch: &mut TestDispatch,
    stop_capable: bool,
) -> RunSliceOutcome {
    let (mut slice, mut action) = machine.begin_slice(max, stop_capable);
    loop {
        let step = match action {
            SliceAction::Run(budget) => {
                let stop = hart.run_cached(machine, cache, budget, dispatch, stop_capable);
                machine.slice_stopped(slice, stop)
            }
            SliceAction::Ask(pc) => {
                let stop = dispatch.observe(pc);
                machine.slice_asked(slice, stop)
            }
            SliceAction::Done(outcome) => return outcome,
        };
        slice = step.0;
        action = step.1;
    }
}

#[test]
fn decoded_cache_stops_at_a_compiled_basic_block_entry() {
    let mut machine = direct_machine();
    let start = machine.cpu.pc;
    write_program(&mut machine, &[0x0012_8293, 0x0012_8293, 0x0012_8293]);
    let mut dispatch = TestDispatch { compiled: Some(start + 8), observed: Vec::new() };
    let mut hart = TinyHart::default();
    let mut cache = CodePageCache::new();

    let outcome =
        run_cached_slice_outcome(&mut machine, &mut hart, &mut cache, 10, &mut dispatch, true);

    assert_eq!(outcome.retired, 2);
    assert_eq!(machine.cpu.pc, start + 8);
    assert_eq!(machine.cpu.x[5], 2);
    assert_eq!(dispatch.observed, vec![start + 8]);
}

#[test]
fn fence_i_invalidates_decoded_instruction_pages() {
    let mut machine = direct_machine();
    let start = machine.cpu.pc;
    write_program(&mut machine, &[0x0010_0293, 0x0000_100f]);
    let mut dispatch = TestDispatch::default();
    let mut hart = TinyHart::default();
    let mut cache = CodePageCache::new();

    run_cached_slice_outcome(&mut machine, &mut hart, &mut cache, 1, &mut dispatch, false);
    assert_eq!(machine.cpu.x[5], 1);

    write_program(&mut machine, &[0x0020_0293, 0x0000_100f]);
    machine.cpu.pc = start;
    machine.cpu.x[5] = 0;
    run_cached_slice_outcome(&mut machine, &mut hart, &mut cache, 1, &mut dispatch, false);
    assert_eq!(machine.cpu.x[5], 1, "cached bytes remain valid before FENCE.I");

    machine.cpu.pc = start + 4;
    run_cached_slice_outcome(&mut machine, &mut hart, &mut cache, 1, &mut dispatch, false);
    machine.cpu.pc = start;
    machine.cpu.x[5] = 0;
    run_cached_slice_outcome(&mut machine, &mut hart, &mut cache, 1, &mut dispatch, false);
    assert_eq!(machine.cpu.x[5], 2);
}

#[test]
fn plain_fence_does_not_invalidate_decoded_instruction_pages() {
    let mut machine = direct_machine();
    write_program(&mut machine, &[0x0000_000f]);
    let generation = machine.cpu.icache_gen;
    let mut dispatch = TestDispatch::default();
    let mut hart = TinyHart::default();
    let mut cache = CodePageCache::new();

    run_cached_slice_outcome(&mut machine, &mut hart, &mut cache, 1, &mut dispatch, false);

    assert_eq!(machine.cpu.icache_gen, generation);
}

#[test]
fn cached_execution_leaves_on_taken_branches() {
    let mut machine = direct_machine();
    // addi x5,x0,1; beq x5,x5,+8; addi x6,x0,99; addi x7,x0,7
    write_program(&mut machine, &[0x0010_0293, 0x0052_8463, 0x0630_0313, 0x0070_0393]);
    let mut dispatch = TestDispatch::default();
    let mut hart = TinyHart::default();
    let mut cache = CodePageCache::new();

    run_cached_slice_outcome(&mut machine, &mut hart, &mut cache, 3, &mut dispatch, false);

    assert_eq!(machine.cpu.x[6], 0);
    assert_eq!(machine.cpu.x[7], 7);
}

#[test]
fn trap_at_the_sequential_pc_rechecks_jit_dispatch() {
    let mut machine = direct_machine();
    let start = machine.cpu.pc;
    // ld x5,0(x1); addi x6,x0,99. x1=0 causes a load access fault.
    write_program(&mut machine, &[0x0000_b283, 0x0630_0313]);
    let mut hart = TinyHart { stvec: start + 4, ..TinyHart::default() };
    let mut cache = CodePageCache::new();
    let mut dispatch = TestDispatch { compiled: Some(start + 4), observed: Vec::new() };

    run_cached_slice_outcome(&mut machine, &mut hart, &mut cache, 1, &mut dispatch, false);

    assert_eq!(machine.cpu.insn_count, 0);
    assert_eq!(machine.cpu.x[6], 0);
    assert_eq!(machine.cpu.pc, start + 4);
    assert_eq!(dispatch.observed, vec![start + 4]);
}

#[test]
fn cached_execution_leaves_on_interrupts() {
    let mut machine = direct_machine();
    let start = machine.cpu.pc;
    write_program(&mut machine, &[0x0630_0293]); // addi x5,x0,99
    let handler = start + 0x100;
    let offset = (KERNEL_OFFSET + 0x100) as usize;
    machine.bus.ram[offset..offset + 4].copy_from_slice(&0x0070_0313u32.to_le_bytes());
    let mut hart = TinyHart { stvec: handler, interrupt: true, ..TinyHart::default() };
    let mut cache = CodePageCache::new();
    let mut dispatch = TestDispatch::default();

    run_cached_slice_outcome(&mut machine, &mut hart, &mut cache, 1, &mut dispatch, false);

    assert_eq!(machine.cpu.x[5], 0);
    assert_eq!(machine.cpu.x[6], 7);
    assert_eq!(machine.cpu.pc, handler + 4);
}

#[test]
fn full_instruction_at_page_end_uses_precise_fetch_fallback() {
    let mut machine = direct_machine();
    let page_end = machine.cpu.pc + 0xffe;
    let offset = (KERNEL_OFFSET + 0xffe) as usize;
    machine.bus.ram[offset..offset + 4].copy_from_slice(&0x0070_0293u32.to_le_bytes());
    machine.cpu.pc = page_end;
    let mut dispatch = TestDispatch::default();
    let mut hart = TinyHart::default();
    let mut cache = CodePageCache::new();

    let outcome =
        run_cached_slice_outcome(&mut machine, &mut hart, &mut cache, 1, &mut dispatch, false);

    assert_eq!(outcome.retired, 1);
    assert_eq!(machine.cpu.x[5], 7);
    assert_eq!(machine.cpu.pc, page_end + 4);
}

#[test]
fn zero_retirement_trap_loop_exhausts_the_attempt_budget() {
    let mut machine = direct_machine();
    let start = machine.cpu.pc;
    write_program(&mut machine, &[0x0000_b283]); // ld x5,0(x1), with x1=0
    let mut hart = TinyHart { stvec: start, ..TinyHart::default() };
    let mut cache = CodePageCache::new();
    let mut dispatch = TestDispatch::default();

    let outcome =
        run_cached_slice_outcome(&mut machine, &mut hart, &mut cache, 8, &mut dispatch, true);

    assert_eq!(outcome.retired, 0);
    assert_eq!(machine.cpu.pc, start);
    assert_eq!(hart.load_faults, 8);
}

fn sbi(machine: &mut VirtMachine, ext: u64, function: u64, arg0: u64, arg1: u64) {
    machine.cpu.x[17] = ext;
    machine.cpu.x[16] = function;
    machine.cpu.x[10] = arg0;
    machine.cpu.x[11] = arg1;
    machine.service_sbi();
}

#[test]
fn direct_sbi_remote_fence_i_invalidates_decoded_pages() {
    let mut machine = direct_machine();
    let generation = machine.cpu.icache_gen;

    sbi(&mut machine, 0x5246_4e43, 1, 0, 0);
    assert_eq!(machine.cpu.icache_gen, generation);
    sbi(&mut machine, 0x5246_4e43, 0, 0, 0);
    assert_eq!(machine.cpu.icache_gen, generation + 1);
    sbi(&mut machine, 5, 0, 0, 0);
    assert_eq!(machine.cpu.icache_gen, generation + 2);
}

#[test]
fn direct_boot_enters_linux_in_supervisor_mode() {
    let machine = direct_machine();
    assert_eq!(machine.cpu.pc, RAM_BASE + KERNEL_OFFSET);
    assert_eq!(machine.cpu.x[10], 0);
    assert_ne!(machine.cpu.x[11], 0);
    let sys = machine.cpu.sys.as_ref().unwrap();
    assert_eq!(sys.mode, Mode::Supervisor);
    assert_eq!(sys.satp, 0);
    assert_eq!(sys.mideleg & (IRQ_SSIP | IRQ_STIP | IRQ_SEIP), 0x222);
}

#[test]
fn direct_sbi_base_time_and_unknown_calls() {
    let mut machine = direct_machine();
    sbi(&mut machine, 0x10, 0, 0, 0);
    assert_eq!((machine.cpu.x[10], machine.cpu.x[11]), (0, 2 << 24));
    sbi(&mut machine, 0x10, 3, 0x5449_4d45, 0);
    assert_eq!((machine.cpu.x[10], machine.cpu.x[11]), (0, 1));
    machine.bus.mtime = 100;
    machine.cpu.sys.as_mut().unwrap().mip |= IRQ_STIP;
    sbi(&mut machine, 0x5449_4d45, 0, 1234, 0);
    assert_eq!(machine.bus.deadline, 1234);
    assert_eq!(machine.cpu.sys.as_ref().unwrap().mip & IRQ_STIP, 0);
    sbi(&mut machine, 0x5449_4d45, 0, 99, 0);
    assert_ne!(machine.cpu.sys.as_ref().unwrap().mip & IRQ_STIP, 0);
    sbi(&mut machine, 0x48_53_4d, 2, 0, 0);
    assert_eq!((machine.cpu.x[10], machine.cpu.x[11]), (0, 0));
    sbi(&mut machine, 0x5246_4e43, 0, 1, 0);
    assert_eq!(machine.cpu.x[10], 0);
    sbi(&mut machine, 0xdead_beef, 7, 0, 0);
    assert_eq!(machine.cpu.x[10], (-2i64) as u64);
    assert_eq!(machine.unsupported_sbi, Some((0xdead_beef, 7)));
}

#[test]
fn direct_sbi_reset_powers_off() {
    let mut machine = direct_machine();
    write_program(&mut machine, &[0x0000_0073]); // ecall
    machine.cpu.x[17] = 0x5352_5354;
    machine.cpu.x[16] = 0;
    machine.cpu.x[10] = 0;
    run_slice_until(&mut machine, 10, |_| false);
    assert!(machine.power_off);
    assert!(machine.bus.power_off);
}

#[test]
fn run_slice_until_services_sbi_before_stopping_at_compiled_code() {
    let mut machine = direct_machine();
    write_program(&mut machine, &[0x0000_0073, 0x0012_8293]); // ecall; addi x5,x5,1
    machine.cpu.x[17] = 0x10;
    machine.cpu.x[16] = 0;

    let target = RAM_BASE + KERNEL_OFFSET + 4;
    let retired = run_slice_until(&mut machine, 10, |pc| pc == target);

    assert_eq!(retired, 1);
    assert_eq!(machine.cpu.pc, target);
    assert_eq!(machine.cpu.x[5], 0);
    assert_eq!(machine.cpu.x[11], 2 << 24);
    assert_eq!(machine.sbi_calls[0], 1);
}

#[test]
fn run_slice_until_keeps_unsupported_sbi_stopped() {
    let mut machine = direct_machine();
    write_program(&mut machine, &[0x0000_0073]); // ecall
    machine.cpu.x[17] = 0xdead_beef;
    machine.cpu.x[16] = 7;

    run_slice_until(&mut machine, 10, |_| false);

    assert_eq!(machine.unsupported_sbi, Some((0xdead_beef, 7)));
    assert!(machine.power_off);
}

#[test]
fn run_slice_until_fast_forwards_wfi_without_faking_retired_instructions() {
    let mut machine = direct_machine();
    write_program(&mut machine, &[0x1050_0073]); // wfi
    machine.bus.deadline = 50;

    let retired = run_slice_until(&mut machine, 10, |_| false);

    assert_eq!(retired, 1);
    assert_eq!(machine.cpu.insn_count, 1);
    assert_eq!(machine.idle_ticks, 50);
    assert_eq!(machine.bus.mtime, 50);
}

#[test]
fn realtime_wfi_reports_idle_to_the_embedding() {
    let mut machine = direct_machine();
    write_program(&mut machine, &[0x1050_0073]); // wfi
    machine.advance_realtime_ns(0);

    let outcome = run_slice_until_outcome(&mut machine, 10, |_| false);

    assert_eq!(outcome.retired, 1);
    assert!(outcome.idle);
    assert_eq!(machine.idle_ticks, 0);
}

#[test]
fn realtime_sync_does_not_move_rdtime_backward() {
    let rdtime = |machine: &VirtMachine| {
        let sys = machine.cpu.sys.as_ref().unwrap();
        machine
            .cpu
            .insn_count
            .checked_div(sys.time_scale)
            .map_or(sys.mtime, |ticks| ticks + sys.time_offset)
    };
    let mut machine = direct_machine();
    machine.advance_realtime_ns(1_000_000);
    machine.sync_devices();

    machine.cpu.insn_count = 6_400;
    let before = rdtime(&machine);
    machine.sync_devices();
    let after = rdtime(&machine);

    assert_eq!(before, 10_064);
    assert_eq!(after, before);
    assert_eq!(machine.bus.mtime, before);
    assert_eq!(machine.cpu.sys.as_ref().unwrap().time_scale, 0);

    machine.cpu.insn_count = 12_800;
    machine.sync_devices();
    let frozen = machine.cpu.sys.as_ref().unwrap().mtime;
    assert_eq!(frozen, before, "speculative time must not accumulate");

    machine.advance_realtime_ns(640_000);
    machine.sync_devices();
    let caught_up = machine.cpu.sys.as_ref().unwrap();
    assert_eq!(caught_up.mtime, 16_400);
    assert_eq!(caught_up.time_scale, machine.insns_per_tick);
}

#[test]
fn virt_bus_jit_state_observes_guest_stores_once() {
    let mut machine = direct_machine();
    let code = RAM_BASE + KERNEL_OFFSET;
    assert!(machine.bus.jit_fast_off(code, code, true).is_some());
    machine.bus.jit_mark_page(code);
    assert!(machine.bus.jit_fast_off(code, code, true).is_none());

    assert_eq!(machine.bus.write(code, 1, 4), BusWrite::Done);
    assert_eq!(machine.bus.write(code + 4, 2, 4), BusWrite::Done);

    assert!(machine.bus.jit_page_marked(KERNEL_OFFSET >> 12));
    assert!(machine.bus.jit_page_dirty(KERNEL_OFFSET >> 12));
    assert_eq!(machine.bus.jit_take_dirty(), vec![KERNEL_OFFSET >> 12]);
}
