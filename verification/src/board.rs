//! The memory map of the `virt` machine, and the device tree that describes it.
//!
//! ```text
//! 0x0010_0000  sifive,test   (poweroff/reboot)
//! 0x0200_0000  CLINT         (msip, deadline, mtime)
//! 0x0c00_0000  PLIC          (full: priorities, enables, thresholds, claim)
//! 0x1000_0000  UART          (ns16550 — OpenSBI + kernel console)
//! 0x1000_1000  virtio-mmio   (0x1000 apart; blk)
//! 0x8000_0000  RAM           (OpenSBI at base, kernel at +2 MiB, DTB above)
//! ```

use vstd::prelude::*;
use vstd::string::StringSliceAdditionalSpecFns;
use crate::bytes::{be_bytes, hex_text, push_all, push_be, push_hex};
use crate::dtb::{blob, cells_data, pair_data, str_data, strs_data, Fdt, FdtNode, FdtView};
use crate::ram::RAM_BASE;

verus! {

pub const TEST_BASE: u64 = 0x0010_0000;

pub const CLINT_BASE: u64 = 0x0200_0000;

pub const CLINT_SIZE: u64 = 0x1_0000;

pub const PLIC_BASE: u64 = 0x0c00_0000;

pub const PLIC_SIZE: u64 = 0x0400_0000;

pub const UART_BASE: u64 = 0x1000_0000;

pub const UART_SIZE: u64 = 0x100;

pub const GOLDFISH_RTC_BASE: u64 = 0x0010_1000;

pub const GOLDFISH_RTC_SIZE: u64 = 0x1000;

pub const VIRTIO_BASE: u64 = 0x1000_1000;

pub const VIRTIO_SIZE: u64 = 0x1000;

pub const VIRTIO_COUNT: u64 = 8;

/// 10 MHz architected timer, matching the DTB timebase.
pub const RTC_FREQ: u64 = 10_000_000;

/// Interrupt source of the UART.
pub const UART_IRQ: u32 = 10;

/// Interrupt source of the real-time clock.
pub const GOLDFISH_RTC_IRQ: u32 = 11;

/// Interrupt source of the first virtio device; device i has the i-th after it.
pub const VIRTIO_IRQ_BASE: u32 = 1;

/// Handle of the hart's interrupt controller.
pub const INTC_PHANDLE: u32 = 1;

/// Handle of the platform's interrupt controller.
pub const PLIC_PHANDLE: u32 = 2;

/// Handle of the test finisher.
pub const SYSCON_PHANDLE: u32 = 5;

/// A property of one string.
pub open spec fn text_prop(name: &str, s: &str) -> (Seq<u8>, Seq<u8>) {
    (name.spec_bytes(), str_data(s))
}

/// A property of several strings.
pub open spec fn texts_prop(name: &str, ss: Seq<&str>) -> (Seq<u8>, Seq<u8>) {
    (name.spec_bytes(), strs_data(ss, ss.len() as int))
}

/// A property of one cell.
pub open spec fn cell_prop(name: &str, v: u32) -> (Seq<u8>, Seq<u8>) {
    (name.spec_bytes(), be_bytes(v as nat, 4))
}

/// A property of several cells.
pub open spec fn cells_prop(name: &str, vs: Seq<u32>) -> (Seq<u8>, Seq<u8>) {
    (name.spec_bytes(), cells_data(vs, vs.len() as int))
}

/// The registers of a device: an address and a size.
pub open spec fn reg_prop(base: u64, size: u64) -> (Seq<u8>, Seq<u8>) {
    ("reg".spec_bytes(), pair_data(base, size))
}

/// A property without a value.
pub open spec fn flag_prop(name: &str) -> (Seq<u8>, Seq<u8>) {
    (name.spec_bytes(), Seq::empty())
}

/// A node without children.
pub open spec fn leaf(name: &str, props: Seq<(Seq<u8>, Seq<u8>)>) -> FdtNode {
    FdtNode { name: name.spec_bytes(), props, children: Seq::empty() }
}

/// Byte `i` of the seed for the kernel's random number generator.
pub open spec fn seed_byte(i: int) -> u8 {
    (i * 0x9e37_79b1 % 0x1_0000_0000 / 8192 % 256) as u8 ^ (i * 31 % 256) as u8
}

/// The seed for the kernel's random number generator.
pub open spec fn rng_seed() -> Seq<u8> {
    Seq::new(64, |i: int| seed_byte(i))
}

/// Boot arguments, console, seed and, if there is one, the initial ramdisk.
pub open spec fn chosen_node(cmdline: &str, initrd_start: u64, initrd_end: u64) -> FdtNode {
    let common = seq![
        text_prop("bootargs", cmdline),
        text_prop("stdout-path", "/soc/serial@10000000"),
        ("rng-seed".spec_bytes(), rng_seed()),
    ];
    leaf(
        "chosen",
        if initrd_end > initrd_start {
            common + seq![
                ("linux,initrd-start".spec_bytes(), be_bytes(initrd_start as nat, 8)),
                ("linux,initrd-end".spec_bytes(), be_bytes(initrd_end as nat, 8)),
            ]
        } else {
            common
        },
    )
}

/// The hart's interrupt controller.
pub open spec fn intc_node() -> FdtNode {
    leaf(
        "interrupt-controller",
        seq![
            cell_prop("#interrupt-cells", 1),
            flag_prop("interrupt-controller"),
            text_prop("compatible", "riscv,cpu-intc"),
            cell_prop("phandle", INTC_PHANDLE),
        ],
    )
}

/// The extensions that the hart implements.
pub open spec fn isa_extensions() -> Seq<&'static str> {
    seq!["i", "m", "a", "f", "d", "c", "zicntr", "zicsr", "zifencei"]
}

/// The hart, with the structured instruction-set properties that Linux reads
/// and the legacy string that OpenSBI reads.
pub open spec fn cpu_node() -> FdtNode {
    FdtNode {
        name: "cpu@0".spec_bytes(),
        props: seq![
            text_prop("device_type", "cpu"),
            cell_prop("reg", 0),
            text_prop("status", "okay"),
            text_prop("compatible", "riscv"),
            text_prop("riscv,isa-base", "rv64i"),
            texts_prop("riscv,isa-extensions", isa_extensions()),
            text_prop("riscv,isa", "rv64imafdc"),
            text_prop("mmu-type", "riscv,sv48"),
        ],
        children: seq![intc_node()],
    }
}

/// The processors.
pub open spec fn cpus_node() -> FdtNode {
    FdtNode {
        name: "cpus".spec_bytes(),
        props: seq![
            cell_prop("#address-cells", 1),
            cell_prop("#size-cells", 0),
            cell_prop("timebase-frequency", RTC_FREQ as u32),
        ],
        children: seq![cpu_node()],
    }
}

/// Guest RAM.
pub open spec fn memory_node(ram_size: u64) -> FdtNode {
    leaf(
        "memory@80000000",
        seq![text_prop("device_type", "memory"), reg_prop(RAM_BASE, ram_size)],
    )
}

/// The test finisher.
pub open spec fn test_node() -> FdtNode {
    leaf(
        "test@100000",
        seq![
            texts_prop("compatible", seq!["sifive,test1", "sifive,test0", "syscon"]),
            reg_prop(TEST_BASE, 0x1000),
            cell_prop("phandle", SYSCON_PHANDLE),
        ],
    )
}

/// One action of the test finisher.
pub open spec fn finisher_node(name: &str, compatible: &str, value: u32) -> FdtNode {
    leaf(
        name,
        seq![
            text_prop("compatible", compatible),
            cell_prop("regmap", SYSCON_PHANDLE),
            cell_prop("offset", 0),
            cell_prop("value", value),
        ],
    )
}

/// The UART.
pub open spec fn serial_node() -> FdtNode {
    leaf(
        "serial@10000000",
        seq![
            text_prop("compatible", "ns16550a"),
            reg_prop(UART_BASE, UART_SIZE),
            cell_prop("clock-frequency", 3_686_400),
            cells_prop("interrupts-extended", seq![PLIC_PHANDLE, UART_IRQ]),
        ],
    )
}

/// The real-time clock.
pub open spec fn rtc_node() -> FdtNode {
    leaf(
        "rtc@101000",
        seq![
            text_prop("compatible", "google,goldfish-rtc"),
            reg_prop(GOLDFISH_RTC_BASE, GOLDFISH_RTC_SIZE),
            cells_prop("interrupts-extended", seq![PLIC_PHANDLE, GOLDFISH_RTC_IRQ]),
        ],
    )
}

/// The core-local interruptor.
pub open spec fn clint_node() -> FdtNode {
    leaf(
        "clint@2000000",
        seq![
            texts_prop("compatible", seq!["sifive,clint0", "riscv,clint0"]),
            reg_prop(CLINT_BASE, CLINT_SIZE),
            cells_prop("interrupts-extended", seq![INTC_PHANDLE, 3, INTC_PHANDLE, 7]),
        ],
    )
}

/// The platform-level interrupt controller: contexts are hart 0's machine-level
/// external interrupt (11), then its supervisor-level one (9).
pub open spec fn plic_node() -> FdtNode {
    leaf(
        "plic@c000000",
        seq![
            texts_prop("compatible", seq!["sifive,plic-1.0.0", "riscv,plic0"]),
            cell_prop("#interrupt-cells", 1),
            flag_prop("interrupt-controller"),
            reg_prop(PLIC_BASE, PLIC_SIZE),
            cell_prop("riscv,ndev", 31),
            cells_prop("interrupts-extended", seq![INTC_PHANDLE, 11, INTC_PHANDLE, 9]),
            cell_prop("phandle", PLIC_PHANDLE),
        ],
    )
}

/// The virtio-mmio slot of device `i`.
pub open spec fn virtio_node(i: int) -> FdtNode {
    let base = (VIRTIO_BASE + i * VIRTIO_SIZE) as u64;
    FdtNode {
        name: "virtio_mmio@".spec_bytes() + hex_text(base as nat),
        props: seq![
            text_prop("compatible", "virtio,mmio"),
            reg_prop(base, VIRTIO_SIZE),
            cells_prop("interrupts-extended", seq![PLIC_PHANDLE, (VIRTIO_IRQ_BASE + i) as u32]),
        ],
        children: Seq::empty(),
    }
}

/// The devices that every machine has.
pub open spec fn fixed_devices() -> Seq<FdtNode> {
    seq![
        test_node(),
        finisher_node("poweroff", "syscon-poweroff", 0x5555),
        finisher_node("reboot", "syscon-reboot", 0x7777),
        serial_node(),
        rtc_node(),
        clint_node(),
        plic_node(),
    ]
}

/// The devices of a machine with `n` virtio slots.
pub open spec fn soc_node(n: nat) -> FdtNode {
    FdtNode {
        name: "soc".spec_bytes(),
        props: seq![
            cell_prop("#address-cells", 2),
            cell_prop("#size-cells", 2),
            text_prop("compatible", "simple-bus"),
            flag_prop("ranges"),
        ],
        children: fixed_devices() + Seq::new(n, |i: int| virtio_node(i)),
    }
}

/// The device tree of the machine.
pub open spec fn virt_tree(
    ram_size: u64,
    cmdline: &str,
    initrd_start: u64,
    initrd_end: u64,
    n_virtio: nat,
) -> FdtNode {
    FdtNode {
        name: "".spec_bytes(),
        props: seq![
            cell_prop("#address-cells", 2),
            cell_prop("#size-cells", 2),
            text_prop("compatible", "riscv-virtio"),
            text_prop("model", "riscv-virtio,qemu"),
        ],
        children: seq![
            chosen_node(cmdline, initrd_start, initrd_end),
            cpus_node(),
            memory_node(ram_size),
            soc_node(n_virtio),
        ],
    }
}

proof fn lemma_child(view: FdtView, node: FdtNode, n: nat)
    requires
        0 < n <= node.children.len(),
    ensures
        view.with_children(node, n) == view.with_children(node, (n - 1) as nat).with_node(
            node.children[n - 1],
        ),
        view.with_children(node, 0) == view,
{
}

fn emit_chosen(f: &mut Fdt, cmdline: &str, initrd_start: u64, initrd_end: u64)
    requires
        old(f).wf(),
    ensures
        final(f).wf(),
        final(f)@ == old(f)@.with_node(chosen_node(cmdline, initrd_start, initrd_end)),
{
    f.begin_node("chosen");
    f.prop_str("bootargs", cmdline);
    f.prop_str("stdout-path", "/soc/serial@10000000");
    // Seed the kernel CRNG from the DTB (as QEMU/U-Boot do). Without this the
    // guest starves for entropy — jitterentropy can't init on our too-regular
    // cycle counter, so every getrandom() blocks and boot stalls ~30s/step.
    // CONFIG_RANDOM_TRUST_BOOTLOADER credits this as full entropy.
    let mut seed: Vec<u8> = Vec::new();
    let mut i: u64 = 0;
    while i < 64
        invariant
            i <= 64,
            seed@ == Seq::new(i as nat, |k: int| seed_byte(k)),
        decreases 64 - i,
    {
        // Deterministic but well-mixed; a fixed seed is fine (the kernel only
        // needs unpredictable-to-the-guest bytes to initialize the CRNG).
        let mixed: u8 = (i * 0x9e37_79b1 % 0x1_0000_0000 / 8192 % 256) as u8;
        seed.push(mixed ^ (i * 31 % 256) as u8);
        i = i + 1;
        assert(seed@ =~= Seq::new(i as nat, |k: int| seed_byte(k)));
    }
    assert(seed@ =~= rng_seed());
    f.prop("rng-seed", seed.as_slice());
    if initrd_end > initrd_start {
        let mut start: Vec<u8> = Vec::new();
        push_be(&mut start, initrd_start, 8);
        let mut end: Vec<u8> = Vec::new();
        push_be(&mut end, initrd_end, 8);
        assert(start@ =~= be_bytes(initrd_start as nat, 8));
        assert(end@ =~= be_bytes(initrd_end as nat, 8));
        f.prop("linux,initrd-start", start.as_slice());
        f.prop("linux,initrd-end", end.as_slice());
    }
    f.end_node();
    proof {
        reveal_with_fuel(FdtView::propped_all, 6);
    }
}

fn emit_cpus(f: &mut Fdt)
    requires
        old(f).wf(),
    ensures
        final(f).wf(),
        final(f)@ == old(f)@.with_node(cpus_node()),
{
    f.begin_node("cpus");
    f.prop_u32("#address-cells", 1);
    f.prop_u32("#size-cells", 0);
    f.prop_u32("timebase-frequency", RTC_FREQ as u32);
    let ghost opened = f@;
    emit_cpu(f);
    proof {
        reveal_with_fuel(FdtView::propped_all, 4);
        lemma_child(opened, cpus_node(), 1);
    }
    f.end_node();
}

fn emit_cpu(f: &mut Fdt)
    requires
        old(f).wf(),
    ensures
        final(f).wf(),
        final(f)@ == old(f)@.with_node(cpu_node()),
{
    f.begin_node("cpu@0");
    f.prop_str("device_type", "cpu");
    f.prop_u32("reg", 0);
    f.prop_str("status", "okay");
    f.prop_str("compatible", "riscv");
    f.prop_str("riscv,isa-base", "rv64i");
    let extensions = ["i", "m", "a", "f", "d", "c", "zicntr", "zicsr", "zifencei"];
    assert(extensions@ =~= isa_extensions());
    f.prop_strs("riscv,isa-extensions", &extensions);
    // OpenSBI 1.4 still discovers hart capabilities from the legacy string.
    // Linux uses the structured properties above, so the optimized kernel
    // needs no ISA fallback.
    f.prop_str("riscv,isa", "rv64imafdc");
    f.prop_str("mmu-type", "riscv,sv48");
    let ghost opened = f@;
    emit_intc(f);
    proof {
        reveal_with_fuel(FdtView::propped_all, 9);
        lemma_child(opened, cpu_node(), 1);
    }
    f.end_node();
}

fn emit_intc(f: &mut Fdt)
    requires
        old(f).wf(),
    ensures
        final(f).wf(),
        final(f)@ == old(f)@.with_node(intc_node()),
{
    f.begin_node("interrupt-controller");
    f.prop_u32("#interrupt-cells", 1);
    emit_flag(f, "interrupt-controller");
    f.prop_str("compatible", "riscv,cpu-intc");
    f.prop_u32("phandle", INTC_PHANDLE);
    f.end_node();
    proof {
        reveal_with_fuel(FdtView::propped_all, 5);
    }
}

fn emit_flag(f: &mut Fdt, name: &str)
    requires
        old(f).wf(),
    ensures
        final(f).wf(),
        final(f)@ == old(f)@.propped(name.spec_bytes(), Seq::empty()),
{
    let none: Vec<u8> = Vec::new();
    f.prop(name, none.as_slice());
}

fn emit_memory(f: &mut Fdt, ram_size: u64)
    requires
        old(f).wf(),
    ensures
        final(f).wf(),
        final(f)@ == old(f)@.with_node(memory_node(ram_size)),
{
    f.begin_node("memory@80000000");
    f.prop_str("device_type", "memory");
    f.prop_u64_pair("reg", RAM_BASE, ram_size);
    f.end_node();
    proof {
        reveal_with_fuel(FdtView::propped_all, 3);
    }
}

fn emit_test(f: &mut Fdt)
    requires
        old(f).wf(),
    ensures
        final(f).wf(),
        final(f)@ == old(f)@.with_node(test_node()),
{
    f.begin_node("test@100000");
    let compatible = ["sifive,test1", "sifive,test0", "syscon"];
    assert(compatible@ =~= seq!["sifive,test1", "sifive,test0", "syscon"]);
    f.prop_strs("compatible", &compatible);
    f.prop_u64_pair("reg", TEST_BASE, 0x1000);
    f.prop_u32("phandle", SYSCON_PHANDLE);
    f.end_node();
    proof {
        reveal_with_fuel(FdtView::propped_all, 4);
    }
}

fn emit_finisher(f: &mut Fdt, name: &str, compatible: &str, value: u32)
    requires
        old(f).wf(),
    ensures
        final(f).wf(),
        final(f)@ == old(f)@.with_node(finisher_node(name, compatible, value)),
{
    f.begin_node(name);
    f.prop_str("compatible", compatible);
    f.prop_u32("regmap", SYSCON_PHANDLE);
    f.prop_u32("offset", 0);
    f.prop_u32("value", value);
    f.end_node();
    proof {
        reveal_with_fuel(FdtView::propped_all, 5);
    }
}

fn emit_serial(f: &mut Fdt)
    requires
        old(f).wf(),
    ensures
        final(f).wf(),
        final(f)@ == old(f)@.with_node(serial_node()),
{
    f.begin_node("serial@10000000");
    f.prop_str("compatible", "ns16550a");
    f.prop_u64_pair("reg", UART_BASE, UART_SIZE);
    f.prop_u32("clock-frequency", 3_686_400);
    let interrupts: [u32; 2] = [PLIC_PHANDLE, UART_IRQ];
    assert(interrupts@ =~= seq![PLIC_PHANDLE, UART_IRQ]);
    f.prop_u32s("interrupts-extended", &interrupts);
    f.end_node();
    proof {
        reveal_with_fuel(FdtView::propped_all, 5);
    }
}

fn emit_rtc(f: &mut Fdt)
    requires
        old(f).wf(),
    ensures
        final(f).wf(),
        final(f)@ == old(f)@.with_node(rtc_node()),
{
    f.begin_node("rtc@101000");
    f.prop_str("compatible", "google,goldfish-rtc");
    f.prop_u64_pair("reg", GOLDFISH_RTC_BASE, GOLDFISH_RTC_SIZE);
    let interrupts: [u32; 2] = [PLIC_PHANDLE, GOLDFISH_RTC_IRQ];
    assert(interrupts@ =~= seq![PLIC_PHANDLE, GOLDFISH_RTC_IRQ]);
    f.prop_u32s("interrupts-extended", &interrupts);
    f.end_node();
    proof {
        reveal_with_fuel(FdtView::propped_all, 4);
    }
}

fn emit_clint(f: &mut Fdt)
    requires
        old(f).wf(),
    ensures
        final(f).wf(),
        final(f)@ == old(f)@.with_node(clint_node()),
{
    f.begin_node("clint@2000000");
    let compatible = ["sifive,clint0", "riscv,clint0"];
    assert(compatible@ =~= seq!["sifive,clint0", "riscv,clint0"]);
    f.prop_strs("compatible", &compatible);
    f.prop_u64_pair("reg", CLINT_BASE, CLINT_SIZE);
    let interrupts: [u32; 4] = [INTC_PHANDLE, 3, INTC_PHANDLE, 7];
    assert(interrupts@ =~= seq![INTC_PHANDLE, 3, INTC_PHANDLE, 7]);
    f.prop_u32s("interrupts-extended", &interrupts);
    f.end_node();
    proof {
        reveal_with_fuel(FdtView::propped_all, 4);
    }
}

fn emit_plic(f: &mut Fdt)
    requires
        old(f).wf(),
    ensures
        final(f).wf(),
        final(f)@ == old(f)@.with_node(plic_node()),
{
    f.begin_node("plic@c000000");
    let compatible = ["sifive,plic-1.0.0", "riscv,plic0"];
    assert(compatible@ =~= seq!["sifive,plic-1.0.0", "riscv,plic0"]);
    f.prop_strs("compatible", &compatible);
    f.prop_u32("#interrupt-cells", 1);
    emit_flag(f, "interrupt-controller");
    f.prop_u64_pair("reg", PLIC_BASE, PLIC_SIZE);
    f.prop_u32("riscv,ndev", 31);
    let interrupts: [u32; 4] = [INTC_PHANDLE, 11, INTC_PHANDLE, 9];
    assert(interrupts@ =~= seq![INTC_PHANDLE, 11, INTC_PHANDLE, 9]);
    f.prop_u32s("interrupts-extended", &interrupts);
    f.prop_u32("phandle", PLIC_PHANDLE);
    f.end_node();
    proof {
        reveal_with_fuel(FdtView::propped_all, 8);
    }
}

fn emit_virtio(f: &mut Fdt, i: u32)
    requires
        old(f).wf(),
        i < u32::MAX,
    ensures
        final(f).wf(),
        final(f)@ == old(f)@.with_node(virtio_node(i as int)),
{
    let base: u64 = VIRTIO_BASE + i as u64 * VIRTIO_SIZE;
    let mut name: Vec<u8> = Vec::new();
    push_all(&mut name, "virtio_mmio@".as_bytes());
    push_hex(&mut name, base);
    assert(name@ =~= "virtio_mmio@".spec_bytes() + hex_text(base as nat));
    f.begin_node_bytes(name.as_slice());
    f.prop_str("compatible", "virtio,mmio");
    f.prop_u64_pair("reg", base, VIRTIO_SIZE);
    let interrupts: [u32; 2] = [PLIC_PHANDLE, VIRTIO_IRQ_BASE + i];
    assert(interrupts@ =~= seq![PLIC_PHANDLE, (VIRTIO_IRQ_BASE + i) as u32]);
    f.prop_u32s("interrupts-extended", &interrupts);
    f.end_node();
    proof {
        reveal_with_fuel(FdtView::propped_all, 4);
    }
}

fn emit_soc(f: &mut Fdt, n_virtio: usize)
    requires
        old(f).wf(),
        n_virtio <= u32::MAX,
    ensures
        final(f).wf(),
        final(f)@ == old(f)@.with_node(soc_node(n_virtio as nat)),
{
    let ghost node = soc_node(n_virtio as nat);
    f.begin_node("soc");
    f.prop_u32("#address-cells", 2);
    f.prop_u32("#size-cells", 2);
    f.prop_str("compatible", "simple-bus");
    emit_flag(f, "ranges");
    let ghost opened = f@;
    emit_test(f);
    emit_finisher(f, "poweroff", "syscon-poweroff", 0x5555);
    emit_finisher(f, "reboot", "syscon-reboot", 0x7777);
    emit_serial(f);
    emit_rtc(f);
    emit_clint(f);
    emit_plic(f);
    proof {
        reveal_with_fuel(FdtView::propped_all, 5);
        assert(node.children.subrange(0, 7) =~= fixed_devices());
        lemma_child(opened, node, 1);
        lemma_child(opened, node, 2);
        lemma_child(opened, node, 3);
        lemma_child(opened, node, 4);
        lemma_child(opened, node, 5);
        lemma_child(opened, node, 6);
        lemma_child(opened, node, 7);
        assert(f@ == opened.with_children(node, 7));
    }
    let mut i: usize = 0;
    while i < n_virtio
        invariant
            f.wf(),
            i <= n_virtio <= u32::MAX,
            node == soc_node(n_virtio as nat),
            f@ == opened.with_children(node, (7 + i) as nat),
        decreases n_virtio - i,
    {
        emit_virtio(f, i as u32);
        proof {
            lemma_child(opened, node, (8 + i) as nat);
            assert(node.children[7 + i] == virtio_node(i as int));
        }
        i = i + 1;
    }
    f.end_node();
}

fn emit_root(
    f: &mut Fdt,
    ram_size: u64,
    cmdline: &str,
    initrd_start: u64,
    initrd_end: u64,
    n_virtio: usize,
)
    requires
        old(f).wf(),
        n_virtio <= u32::MAX,
    ensures
        final(f).wf(),
        final(f)@ == old(f)@.with_node(
            virt_tree(ram_size, cmdline, initrd_start, initrd_end, n_virtio as nat),
        ),
{
    let ghost tree = virt_tree(ram_size, cmdline, initrd_start, initrd_end, n_virtio as nat);
    let ghost chosen = chosen_node(cmdline, initrd_start, initrd_end);
    let ghost memory = memory_node(ram_size);
    let ghost soc = soc_node(n_virtio as nat);
    f.begin_node("");
    f.prop_u32("#address-cells", 2);
    f.prop_u32("#size-cells", 2);
    f.prop_str("compatible", "riscv-virtio");
    f.prop_str("model", "riscv-virtio,qemu");
    let ghost opened = f@;
    assert(opened == old(f)@.begun(tree.name).propped_all(tree.props, 4)) by {
        reveal_with_fuel(FdtView::propped_all, 5);
    }
    emit_chosen(f, cmdline, initrd_start, initrd_end);
    assert(f@ == opened.with_children(tree, 1)) by {
        lemma_child(opened, tree, 1);
        assert(tree.children[0] == chosen);
    }
    emit_cpus(f);
    assert(f@ == opened.with_children(tree, 2)) by {
        lemma_child(opened, tree, 2);
        assert(tree.children[1] == cpus_node());
    }
    emit_memory(f, ram_size);
    assert(f@ == opened.with_children(tree, 3)) by {
        lemma_child(opened, tree, 3);
        assert(tree.children[2] == memory);
    }
    emit_soc(f, n_virtio);
    assert(f@ == opened.with_children(tree, 4)) by {
        lemma_child(opened, tree, 4);
        assert(tree.children[3] == soc);
    }
    f.end_node();
}

/// The flattened device tree of a machine with `ram_size` bytes of RAM, an
/// initial ramdisk at the given addresses (none if they are equal) and
/// `n_virtio` virtio devices.
pub fn build_virt_fdt(
    ram_size: u64,
    cmdline: &str,
    initrd_start: u64,
    initrd_end: u64,
    n_virtio: usize,
) -> (out: Vec<u8>)
    requires
        n_virtio <= u32::MAX,
    ensures
        out@ == blob(
            virt_tree(ram_size, cmdline, initrd_start, initrd_end, n_virtio as nat),
        ),
{
    let mut f = Fdt::new();
    emit_root(&mut f, ram_size, cmdline, initrd_start, initrd_end, n_virtio);
    f.finish()
}

} // verus!
