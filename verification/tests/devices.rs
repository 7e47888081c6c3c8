use rv64_system::boot::{load_images, VirtImages, KERNEL_OFFSET};
use rv64_system::bus::{BusRead, BusWrite};
use rv64_system::clock::clamped_ns;
use rv64_system::diag::TrapRegisters;
use rv64_system::dtb::Fdt;
use rv64_system::machine::VirtMachine;
use rv64_system::plic::Plic;
use rv64_system::staging::{virt_disk_request_kind, HostEvents, Staged};
use rv64_system::uart::Uart;
use rv64_system::virtio::BlockRequestKind;
use rv64_system::{host_unix_time_ns, RAM_BASE};

fn images<'a>() -> VirtImages<'a> {
    VirtImages {
        opensbi: &[],
        kernel: &[],
        cmdline: "",
        initrd: None,
        disk: None,
        external_disk_size: None,
        net: None,
    }
}

#[test]
fn a_claimed_source_waits_for_its_completion() {
    let mut plic = Plic::new();
    plic.write(4 * 3, 1);
    plic.write(4 * 10, 7);
    plic.write(0x2080, 1 << 3 | 1 << 10 | 1);
    assert_eq!(plic.read(0x2080), 1 << 3 | 1 << 10, "source 0 is never enabled");
    plic.set_pending(1 << 3 | 1 << 10);
    assert_eq!(plic.best(1), 10);
    assert_eq!(plic.best(0), 0);
    assert_eq!(plic.read(0x20_1004), 10);
    assert_eq!(plic.read(0x20_1004), 3);
    assert_eq!(plic.read(0x20_1004), 0);
    assert!(!plic.pending_ctx(1));
    plic.write(0x20_1004, 10);
    assert_eq!(plic.best(1), 10);
    plic.write(0x20_1000, 7);
    assert_eq!(plic.best(1), 0, "the threshold must be exceeded");
    assert_eq!(plic.masks(), (1 << 3 | 1 << 10, 1 << 3));
}

#[test]
fn the_highest_source_wins_among_equals() {
    let mut plic = Plic::new();
    for source in [2u64, 5, 9] {
        plic.write(4 * source, 3);
    }
    plic.write(0x2000, u32::MAX);
    plic.set_pending(1 << 9 | 1 << 5 | 1 << 2);
    assert_eq!(plic.best(0), 9);
}

#[test]
fn the_uart_moves_bytes_both_ways() {
    let mut uart = Uart::new();
    uart.write(0, b'h');
    uart.write(0, b'i');
    assert_eq!(uart.take_output(), b"hi");
    assert!(uart.take_output().is_empty());
    assert_eq!(uart.read(5), 0x60);
    uart.input(b"ab");
    assert_eq!(uart.read(5), 0x61);
    assert!(!uart.irq());
    uart.write(1, 1);
    assert!(uart.irq());
    assert_eq!(uart.read(2), 0xc4);
    assert_eq!(uart.read(0), b'a');
    assert_eq!(uart.read(0), b'b');
    assert!(!uart.irq());
    assert_eq!(uart.read(0), 0);
}

#[test]
fn an_empty_transmitter_interrupts_until_it_is_identified() {
    let mut uart = Uart::new();
    uart.write(1, 2);
    assert!(uart.irq());
    assert_eq!(uart.read(2), 0xc2);
    assert!(!uart.irq());
    uart.write(0, b'x');
    assert!(uart.irq());
    uart.write(1, 0);
    assert!(!uart.irq(), "a disabled interrupt keeps the line low");
}

#[test]
fn a_device_tree_has_its_header_and_shares_its_names() {
    let mut tree = Fdt::new();
    tree.begin_node("");
    tree.prop_u32("a", 1);
    tree.prop_str("b", "text");
    tree.begin_node("x");
    tree.prop_u32("a", 2);
    tree.end_node();
    tree.end_node();
    let blob = tree.finish();
    let word = |at: usize| u32::from_be_bytes(blob[at..at + 4].try_into().unwrap());
    assert_eq!(word(0), 0xd00d_feed);
    assert_eq!(word(4) as usize, blob.len());
    assert_eq!(word(8), 56);
    assert_eq!(word(20), 17);
    assert_eq!(word(32), 4, "two names of one letter");
    let strings = word(12) as usize;
    assert_eq!(&blob[strings..], b"a\0b\0");
    assert_eq!(word(56), 1);
    assert_eq!([word(64), word(68), word(72), word(76)], [3, 4, 0, 1]);
}

#[test]
fn images_that_do_not_fit_are_refused() {
    assert!(load_images(4096, &images()).is_none());
    assert!(VirtMachine::try_new(4096, images(), true).is_none());
    let kernel = vec![7u8; 9 << 20];
    let large = VirtImages { kernel: &kernel, ..images() };
    assert!(VirtMachine::try_new(8 << 20, large, true).is_none());
    assert!(VirtMachine::try_new(8 << 20, images(), true).is_some());
}

#[test]
fn the_kernel_is_where_the_hart_starts() {
    let kernel = [0x13u8, 0, 0, 0];
    let machine = VirtMachine::new_direct(16 << 20, VirtImages { kernel: &kernel, ..images() });
    let at = KERNEL_OFFSET as usize;
    assert_eq!(&machine.bus.ram[at..at + 4], &kernel);
    assert_eq!(machine.cpu.pc, RAM_BASE + KERNEL_OFFSET);
}

#[test]
fn the_bus_routes_by_address() {
    let mut machine = VirtMachine::new_direct(8 << 20, images());
    assert_eq!(machine.bus.write(RAM_BASE + 8, 0x1122_3344_5566_7788, 8), BusWrite::Done);
    assert_eq!(machine.bus.read(RAM_BASE + 8, 8), BusRead::Value(0x1122_3344_5566_7788));
    assert_eq!(machine.bus.read(RAM_BASE + 9, 2), BusRead::Value(0x6677));
    assert_eq!(machine.bus.read(0, 4), BusRead::Fault);
    assert_eq!(machine.bus.write(0, 0, 4), BusWrite::Fault);
    assert_eq!(machine.bus.write(0x1000_0000, u64::from(b'z'), 1), BusWrite::Done);
    assert_eq!(machine.console_output(), b"z");
    machine.console_input(b"q");
    assert_eq!(machine.bus.read(0x1000_0000, 1), BusRead::Value(u64::from(b'q')));
    assert!(matches!(machine.bus.read(0x0010_1000, 4), BusRead::Rtc(_)));
    assert_eq!(machine.bus.write(0x0010_0000, 0x5555, 4), BusWrite::Done);
    assert!(machine.bus.power_off);
}

#[test]
fn console_output_is_what_was_written_since_it_was_taken() {
    let mut machine = VirtMachine::new_direct(8 << 20, images());
    machine.bus.write(0x1000_0000, u64::from(b'a'), 1);
    machine.bus.uart_input(b"in");
    machine.bus.write(0x1000_0003, 0x80, 1);
    machine.bus.write(0x1000_0000, u64::from(b'x'), 1);
    machine.bus.write(0x1000_0003, 0x03, 1);
    machine.bus.write(0x1000_0000, u64::from(b'b'), 1);
    assert_eq!(machine.bus.uart_take(), b"ab");
    assert!(machine.bus.uart_take().is_empty());
    machine.bus.write(0x1000_0000, u64::from(b'c'), 1);
    assert_eq!(machine.bus.uart_take(), b"c");
    assert_eq!(machine.bus.read(0x1000_0000, 1), BusRead::Value(u64::from(b'i')));
}

#[test]
fn request_numbers_go_on_over_a_reboot() {
    let boot = || {
        let disk = VirtImages { external_disk_size: Some(4096), net: Some([2; 6]), ..images() };
        VirtMachine::new_direct(8 << 20, disk)
    };
    let mut first = boot();
    assert_eq!(first.bus.next_request_number(), 1);
    first.bus.virtio[0].number_from(7);
    assert_eq!(first.bus.next_request_number(), 7);
    let mut second = boot();
    second.bus.number_requests_from(first.bus.next_request_number());
    assert_eq!(second.bus.virtio[0].next_number(), 7);
}

#[test]
fn the_interrupt_state_prints_on_one_line() {
    let machine = VirtMachine::new_direct(8 << 20, images());
    let line = machine.debug_irq_state(TrapRegisters { mie: 0x222, sepc: 16, scause: 9 });
    assert!(
        line.starts_with("plic{pend=0x0 claimed=0x0 best1=0}  mip=0x0 mie=0x222 mtime=0 mtcmp="),
        "{}",
        line,
    );
    assert!(line.ends_with(" timer_future=true sepc=0x10 scause=0x9"), "{}", line);
}

#[test]
fn staging_picks_what_the_machine_gets() {
    let mut staged = Staged::new();
    let choices = staged.choose_boot();
    assert_eq!(choices.cmdline, "console=ttyS0 root=/dev/vda rw");
    assert!(choices.net.is_none() && choices.disk.is_none() && !choices.initrd);
    staged.cmdline = b"quiet".to_vec();
    staged.disk = vec![1, 2, 3];
    staged.external_disk_size = 512;
    staged.net_on = true;
    staged.net_mac = vec![1, 2, 3, 4, 5, 6];
    let choices = staged.choose_boot();
    assert_eq!(choices.cmdline, "quiet");
    assert_eq!(choices.disk, Some(vec![1, 2, 3]));
    assert_eq!(choices.external_disk_size, None);
    assert_eq!(choices.net, Some([1, 2, 3, 4, 5, 6]));
    let choices = staged.choose_boot();
    assert_eq!(choices.external_disk_size, Some(512));
    staged.clear_images();
    assert!(staged.cmdline.is_empty());
    assert_eq!(staged.external_disk_size, 0);
}

#[test]
fn a_command_line_that_is_no_text_is_repaired() {
    let mut staged = Staged::new();
    staged.cmdline = vec![b'a', 0xff, b'b'];
    assert_eq!(staged.choose_boot().cmdline, "a\u{fffd}b");
}

#[test]
fn host_events_are_taken_once() {
    let mut events = HostEvents { queued: false };
    events.note();
    assert!(events.take());
    assert!(!events.take());
    events.note();
    events.begin();
    assert!(!events.take());
    assert_eq!(virt_disk_request_kind(None), 0);
    assert_eq!(virt_disk_request_kind(Some(BlockRequestKind::Flush)), 3);
}

#[test]
fn the_clock_reads_nanoseconds_since_the_epoch() {
    // 2020-01-01 in nanoseconds.
    assert!(host_unix_time_ns() > 1_577_836_800_000_000_000);
    assert_eq!(clamped_ns(Some(u128::MAX)), u64::MAX);
    assert_eq!(clamped_ns(Some(12)), 12);
    assert_eq!(clamped_ns(None), 0);
}
