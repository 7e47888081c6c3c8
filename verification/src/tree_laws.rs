//! What a kernel finds in the device tree: its arguments, its memory and its
//! devices, each where the machine has it.

use vstd::prelude::*;
use vstd::string::StringSliceAdditionalSpecFns;
use crate::board::{
    clint_node, plic_node, rtc_node, serial_node, soc_node, test_node, virt_tree, virtio_node,
};
use crate::bus::{region_of, BusView, Region};
use crate::bytes::be_bytes;
use crate::dtb::FdtNode;

verus! {

/// The value of the first of the properties from the `i`-th on that has this
/// name.
pub open spec fn value_from(props: Seq<(Seq<u8>, Seq<u8>)>, name: Seq<u8>, i: int) -> Option<
    Seq<u8>,
>
    decreases props.len() - i,
{
    if i < 0 || i >= props.len() {
        None
    } else if props[i].0 == name {
        Some(props[i].1)
    } else {
        value_from(props, name, i + 1)
    }
}

/// The first of the nodes from the `i`-th on that has this name.
pub open spec fn node_from(nodes: Seq<FdtNode>, name: Seq<u8>, i: int) -> Option<FdtNode>
    decreases nodes.len() - i,
{
    if i < 0 || i >= nodes.len() {
        None
    } else if nodes[i].name == name {
        Some(nodes[i])
    } else {
        node_from(nodes, name, i + 1)
    }
}

/// The node that a path of names leads to.
pub open spec fn node_at(root: FdtNode, path: Seq<&str>) -> Option<FdtNode>
    decreases path.len(),
{
    if path.len() == 0 {
        Some(root)
    } else {
        match node_from(root.children, path[0].spec_bytes(), 0) {
            Some(child) => node_at(child, path.drop_first()),
            None => None,
        }
    }
}

/// The value of a property of the node at a path.
pub open spec fn value_at(root: FdtNode, path: Seq<&str>, name: &str) -> Option<Seq<u8>> {
    match node_at(root, path) {
        Some(node) => value_from(node.props, name.spec_bytes(), 0),
        None => None,
    }
}

/// A number of four or eight bytes, the most significant first.
pub open spec fn is_number(bytes: Seq<u8>, v: int) -> bool {
    crate::bytes::be_value(bytes) == v && (bytes.len() == 4 || bytes.len() == 8)
}

/// A text with a zero behind it.
pub open spec fn is_string(bytes: Seq<u8>, text: Seq<u8>) -> bool {
    &&& bytes.len() == text.len() + 1
    &&& bytes.subrange(0, text.len() as int) == text
    &&& bytes[text.len() as int] == 0
}

/// An address and a size of eight bytes each.
pub open spec fn is_range(bytes: Seq<u8>, base: int, size: int) -> bool {
    &&& bytes.len() == 16
    &&& crate::bytes::be_value(bytes.subrange(0, 8)) == base
    &&& crate::bytes::be_value(bytes.subrange(8, 16)) == size
}

/// The platform's interrupt controller, which has handle 2, and a source of it.
pub open spec fn is_interrupt(bytes: Seq<u8>, source: int) -> bool {
    &&& bytes.len() == 8
    &&& crate::bytes::be_value(bytes.subrange(0, 4)) == 2
    &&& crate::bytes::be_value(bytes.subrange(4, 8)) == source
}

proof fn lemma_apart(a: &str, b: &str)
    requires
        a@ != b@,
    ensures
        a.spec_bytes() != b.spec_bytes(),
{
    vstd::utf8::encode_utf8_decode_utf8(a@);
    vstd::utf8::encode_utf8_decode_utf8(b@);
}

proof fn lemma_value(props: Seq<(Seq<u8>, Seq<u8>)>, name: Seq<u8>, i: int, k: int)
    requires
        0 <= i <= k < props.len(),
        props[k].0 == name,
        forall|j: int| i <= j < k ==> (#[trigger] props[j]).0 != name,
    ensures
        value_from(props, name, i) == Some(props[k].1),
    decreases k - i,
{
    if i < k {
        lemma_value(props, name, i + 1, k);
    }
}

proof fn lemma_no_value(props: Seq<(Seq<u8>, Seq<u8>)>, name: Seq<u8>, i: int)
    requires
        0 <= i <= props.len(),
        forall|j: int| i <= j < props.len() ==> (#[trigger] props[j]).0 != name,
    ensures
        value_from(props, name, i) is None,
    decreases props.len() - i,
{
    if i < props.len() {
        lemma_no_value(props, name, i + 1);
    }
}

proof fn lemma_node(nodes: Seq<FdtNode>, name: Seq<u8>, i: int, k: int)
    requires
        0 <= i <= k < nodes.len(),
        nodes[k].name == name,
        forall|j: int| i <= j < k ==> (#[trigger] nodes[j]).name != name,
    ensures
        node_from(nodes, name, i) == Some(nodes[k]),
    decreases k - i,
{
    if i < k {
        lemma_node(nodes, name, i + 1, k);
    }
}

/// The kernel finds its command line: the property `bootargs` of `/chosen` is
/// the given text with a zero behind it, whatever it is.
#[verifier::spinoff_prover]
#[verifier::rlimit(40)]
pub proof fn law_kernel_finds_its_command_line(
    ram_size: u64,
    cmdline: &str,
    initrd_start: u64,
    initrd_end: u64,
    n_virtio: nat,
)
    ensures
        ({
            let tree = virt_tree(ram_size, cmdline, initrd_start, initrd_end, n_virtio);
            let found = value_at(tree, seq!["chosen"], "bootargs");
            found is Some && is_string(found->0, cmdline.spec_bytes())
        }),
{
    let tree = virt_tree(ram_size, cmdline, initrd_start, initrd_end, n_virtio);
    reveal_with_fuel(node_at, 2);
    lemma_node(tree.children, "chosen".spec_bytes(), 0, 0);
    let node = tree.children[0];
    lemma_value(node.props, "bootargs".spec_bytes(), 0, 0);
    let bytes = cmdline.spec_bytes();
    assert(bytes.push(0).subrange(0, bytes.len() as int) =~= bytes);
    assert(seq!["chosen"].drop_first() =~= Seq::<&str>::empty());
}


proof fn lemma_number(v: nat, n: nat)
    requires
        n == 4 && v < 0x1_0000_0000 || n == 8 && v < 0x1_0000_0000_0000_0000,
    ensures
        be_bytes(v, n).len() == n,
        crate::bytes::be_value(be_bytes(v, n)) == v,
{
    crate::bytes::lemma_byte_spans();
    crate::bytes::lemma_be_bytes_len(v, n);
    crate::bytes::lemma_be_round_trip(v, n);
}

proof fn lemma_range(base: u64, size: u64)
    ensures
        is_range(crate::dtb::pair_data(base, size), base as int, size as int),
{
    lemma_number(base as nat, 8);
    lemma_number(size as nat, 8);
    let data = crate::dtb::pair_data(base, size);
    assert(data.subrange(0, 8) =~= be_bytes(base as nat, 8));
    assert(data.subrange(8, 16) =~= be_bytes(size as nat, 8));
}

proof fn lemma_interrupt(cells: Seq<u32>, source: u32)
    requires
        cells.len() == 2,
        cells[0] == 2,
        cells[1] == source,
    ensures
        is_interrupt(crate::dtb::cells_data(cells, 2), source as int),
{
    lemma_number(2, 4);
    lemma_number(source as nat, 4);
    reveal_with_fuel(crate::dtb::cells_data, 3);
    let data = crate::dtb::cells_data(cells, 2);
    assert(data =~= be_bytes(2, 4) + be_bytes(source as nat, 4));
    assert(data.subrange(0, 4) =~= be_bytes(2, 4));
    assert(data.subrange(4, 8) =~= be_bytes(source as nat, 4));
}

/// The kernel finds its memory: the register range of `/memory@80000000` is all
/// of RAM, which starts at 0x8000_0000.
#[verifier::spinoff_prover]
#[verifier::rlimit(40)]
pub proof fn law_kernel_finds_its_memory(
    ram_size: u64,
    cmdline: &str,
    initrd_start: u64,
    initrd_end: u64,
    n_virtio: nat,
)
    ensures
        ({
            let tree = virt_tree(ram_size, cmdline, initrd_start, initrd_end, n_virtio);
            let found = value_at(tree, seq!["memory@80000000"], "reg");
            found is Some && is_range(found->0, 0x8000_0000, ram_size as int)
        }),
{
    let tree = virt_tree(ram_size, cmdline, initrd_start, initrd_end, n_virtio);
    reveal_with_fuel(node_at, 2);
    reveal_strlit("chosen");
    reveal_strlit("cpus");
    reveal_strlit("memory@80000000");
    reveal_strlit("device_type");
    reveal_strlit("reg");
    lemma_apart("chosen", "memory@80000000");
    lemma_apart("cpus", "memory@80000000");
    lemma_apart("device_type", "reg");
    lemma_node(tree.children, "memory@80000000".spec_bytes(), 0, 2);
    lemma_value(tree.children[2].props, "reg".spec_bytes(), 0, 1);
    lemma_range(0x8000_0000, ram_size);
    assert(seq!["memory@80000000"].drop_first() =~= Seq::<&str>::empty());
}

/// The kernel finds its initial ramdisk, if there is one: `/chosen` says where it
/// starts and ends. If there is none, `/chosen` says nothing of it.
#[verifier::spinoff_prover]
#[verifier::rlimit(40)]
pub proof fn law_kernel_finds_its_ramdisk(
    ram_size: u64,
    cmdline: &str,
    initrd_start: u64,
    initrd_end: u64,
    n_virtio: nat,
)
    ensures
        ({
            let tree = virt_tree(ram_size, cmdline, initrd_start, initrd_end, n_virtio);
            let start = value_at(tree, seq!["chosen"], "linux,initrd-start");
            let end = value_at(tree, seq!["chosen"], "linux,initrd-end");
            if initrd_end > initrd_start {
                &&& start is Some && is_number(start->0, initrd_start as int)
                &&& end is Some && is_number(end->0, initrd_end as int)
            } else {
                start is None && end is None
            }
        }),
{
    let tree = virt_tree(ram_size, cmdline, initrd_start, initrd_end, n_virtio);
    reveal_with_fuel(node_at, 2);
    reveal_strlit("bootargs");
    reveal_strlit("stdout-path");
    reveal_strlit("rng-seed");
    reveal_strlit("linux,initrd-start");
    reveal_strlit("linux,initrd-end");
    lemma_apart("bootargs", "linux,initrd-start");
    lemma_apart("stdout-path", "linux,initrd-start");
    lemma_apart("rng-seed", "linux,initrd-start");
    lemma_apart("bootargs", "linux,initrd-end");
    lemma_apart("stdout-path", "linux,initrd-end");
    lemma_apart("rng-seed", "linux,initrd-end");
    lemma_apart("linux,initrd-start", "linux,initrd-end");
    lemma_node(tree.children, "chosen".spec_bytes(), 0, 0);
    let props = tree.children[0].props;
    if initrd_end > initrd_start {
        lemma_number(initrd_start as nat, 8);
        lemma_number(initrd_end as nat, 8);
        lemma_value(props, "linux,initrd-start".spec_bytes(), 0, 3);
        lemma_value(props, "linux,initrd-end".spec_bytes(), 0, 4);
    } else {
        lemma_no_value(props, "linux,initrd-start".spec_bytes(), 0);
        lemma_no_value(props, "linux,initrd-end".spec_bytes(), 0);
    }
    assert(seq!["chosen"].drop_first() =~= Seq::<&str>::empty());
}

proof fn lemma_names_of_devices()
    ensures
        ({
            let names = seq![
                "test@100000".spec_bytes(),
                "poweroff".spec_bytes(),
                "reboot".spec_bytes(),
                "serial@10000000".spec_bytes(),
                "rtc@101000".spec_bytes(),
                "clint@2000000".spec_bytes(),
                "plic@c000000".spec_bytes(),
            ];
            forall|i: int, j: int|
                0 <= i < j < 7 ==> #[trigger] names[i] != #[trigger] names[j]
        }),
{
    broadcast use vstd::string::is_ascii_spec_bytes;

    reveal_strlit("test@100000");
    reveal_strlit("poweroff");
    reveal_strlit("reboot");
    reveal_strlit("serial@10000000");
    reveal_strlit("rtc@101000");
    reveal_strlit("clint@2000000");
    reveal_strlit("plic@c000000");
    assert("test@100000".spec_bytes().len() == 11) by {
        assert(vstd::string::is_ascii("test@100000"));
    }
    assert("poweroff".spec_bytes().len() == 8) by {
        assert(vstd::string::is_ascii("poweroff"));
    }
    assert("reboot".spec_bytes().len() == 6) by {
        assert(vstd::string::is_ascii("reboot"));
    }
    assert("serial@10000000".spec_bytes().len() == 15) by {
        assert(vstd::string::is_ascii("serial@10000000"));
    }
    assert("rtc@101000".spec_bytes().len() == 10) by {
        assert(vstd::string::is_ascii("rtc@101000"));
    }
    assert("clint@2000000".spec_bytes().len() == 13) by {
        assert(vstd::string::is_ascii("clint@2000000"));
    }
    assert("plic@c000000".spec_bytes().len() == 12) by {
        assert(vstd::string::is_ascii("plic@c000000"));
    }
}

#[verifier::spinoff_prover]
#[verifier::rlimit(40)]
proof fn lemma_device(
    ram_size: u64,
    cmdline: &str,
    initrd_start: u64,
    initrd_end: u64,
    n_virtio: nat,
    name: &str,
    k: int,
)
    requires
        0 <= k < 7,
        soc_node(n_virtio).children[k].name == name.spec_bytes(),
    ensures
        node_at(
            virt_tree(ram_size, cmdline, initrd_start, initrd_end, n_virtio),
            seq!["soc", name],
        ) == Some(soc_node(n_virtio).children[k]),
{
    let tree = virt_tree(ram_size, cmdline, initrd_start, initrd_end, n_virtio);
    let soc = soc_node(n_virtio);
    let path = seq!["soc", name];
    reveal_with_fuel(node_at, 3);
    reveal_strlit("chosen");
    reveal_strlit("cpus");
    reveal_strlit("memory@80000000");
    reveal_strlit("soc");
    lemma_apart("chosen", "soc");
    lemma_apart("cpus", "soc");
    lemma_apart("memory@80000000", "soc");
    lemma_node(tree.children, "soc".spec_bytes(), 0, 3);
    lemma_names_of_devices();
    let names = seq![
        "test@100000".spec_bytes(),
        "poweroff".spec_bytes(),
        "reboot".spec_bytes(),
        "serial@10000000".spec_bytes(),
        "rtc@101000".spec_bytes(),
        "clint@2000000".spec_bytes(),
        "plic@c000000".spec_bytes(),
    ];
    assert forall|j: int| 0 <= j < 7 implies #[trigger] soc.children[j].name == names[j] by {}
    assert forall|j: int| 0 <= j < k implies (#[trigger] soc.children[j]).name
        != name.spec_bytes() by {
        assert(names[j] != names[k]);
    }
    lemma_node(soc.children, name.spec_bytes(), 0, k);
    assert(path.drop_first() =~= seq![name]);
    assert(seq![name].drop_first() =~= Seq::<&str>::empty());
}

proof fn lemma_property_names()
    ensures
        "compatible".spec_bytes() != "reg".spec_bytes(),
        "compatible".spec_bytes() != "interrupts-extended".spec_bytes(),
        "reg".spec_bytes() != "interrupts-extended".spec_bytes(),
        "clock-frequency".spec_bytes() != "interrupts-extended".spec_bytes(),
        "#interrupt-cells".spec_bytes() != "reg".spec_bytes(),
        "interrupt-controller".spec_bytes() != "reg".spec_bytes(),
{
    reveal_strlit("compatible");
    reveal_strlit("reg");
    reveal_strlit("interrupts-extended");
    reveal_strlit("clock-frequency");
    reveal_strlit("#interrupt-cells");
    reveal_strlit("interrupt-controller");
    assert("compatible"@.len() == 10);
    assert("reg"@.len() == 3);
    assert("interrupts-extended"@.len() == 19);
    assert("clock-frequency"@.len() == 15);
    assert("#interrupt-cells"@.len() == 16);
    assert("interrupt-controller"@.len() == 20);
    lemma_apart("compatible", "reg");
    lemma_apart("compatible", "interrupts-extended");
    lemma_apart("reg", "interrupts-extended");
    lemma_apart("clock-frequency", "interrupts-extended");
    lemma_apart("#interrupt-cells", "reg");
    lemma_apart("interrupt-controller", "reg");
}

proof fn lemma_fixed(n: nat)
    ensures
        soc_node(n).children.len() == 7 + n,
        soc_node(n).children[0] == test_node(),
        soc_node(n).children[3] == serial_node(),
        soc_node(n).children[4] == rtc_node(),
        soc_node(n).children[5] == clint_node(),
        soc_node(n).children[6] == plic_node(),
        forall|i: int| 0 <= i < n ==> #[trigger] soc_node(n).children[7 + i] == virtio_node(i),
{
}

/// Whether a node has these registers and, where a source is given, this
/// interrupt.
spec fn placed(node: FdtNode, base: int, size: int, source: Option<int>) -> bool {
    let reg = value_from(node.props, "reg".spec_bytes(), 0);
    let irq = value_from(node.props, "interrupts-extended".spec_bytes(), 0);
    &&& reg is Some && is_range(reg->0, base, size)
    &&& source matches Some(i) ==> irq is Some && is_interrupt(irq->0, i)
}

proof fn lemma_serial()
    ensures
        placed(serial_node(), 0x1000_0000, 0x100, Some(10)),
        value_from(serial_node().props, "compatible".spec_bytes(), 0) is Some,
        is_string(
            value_from(serial_node().props, "compatible".spec_bytes(), 0)->0,
            "ns16550a".spec_bytes(),
        ),
{
    let node = serial_node();
    let bytes = "ns16550a".spec_bytes();
    lemma_property_names();
    lemma_value(node.props, "compatible".spec_bytes(), 0, 0);
    lemma_value(node.props, "reg".spec_bytes(), 0, 1);
    lemma_value(node.props, "interrupts-extended".spec_bytes(), 0, 3);
    lemma_range(0x1000_0000, 0x100);
    lemma_interrupt(seq![2u32, 10u32], 10);
    assert(bytes.push(0).subrange(0, bytes.len() as int) =~= bytes);
}

proof fn lemma_controllers()
    ensures
        placed(plic_node(), 0xc00_0000, 0x400_0000, None),
        placed(clint_node(), 0x200_0000, 0x1_0000, None),
        placed(rtc_node(), 0x10_1000, 0x1000, Some(11)),
        placed(test_node(), 0x10_0000, 0x1000, None),
{
    lemma_property_names();
    lemma_value(plic_node().props, "reg".spec_bytes(), 0, 3);
    lemma_value(clint_node().props, "reg".spec_bytes(), 0, 1);
    lemma_value(rtc_node().props, "reg".spec_bytes(), 0, 1);
    lemma_value(rtc_node().props, "interrupts-extended".spec_bytes(), 0, 2);
    lemma_value(test_node().props, "reg".spec_bytes(), 0, 1);
    lemma_range(0xc00_0000, 0x400_0000);
    lemma_range(0x200_0000, 0x1_0000);
    lemma_range(0x10_1000, 0x1000);
    lemma_range(0x10_0000, 0x1000);
    lemma_interrupt(seq![2u32, 11u32], 11);
}

proof fn lemma_virtio(i: int)
    requires
        0 <= i < 8,
    ensures
        placed(virtio_node(i), 0x1000_1000 + i * 0x1000, 0x1000, Some(i + 1)),
        value_from(virtio_node(i).props, "compatible".spec_bytes(), 0) is Some,
        is_string(
            value_from(virtio_node(i).props, "compatible".spec_bytes(), 0)->0,
            "virtio,mmio".spec_bytes(),
        ),
{
    let node = virtio_node(i);
    let bytes = "virtio,mmio".spec_bytes();
    lemma_property_names();
    lemma_value(node.props, "compatible".spec_bytes(), 0, 0);
    lemma_value(node.props, "reg".spec_bytes(), 0, 1);
    lemma_value(node.props, "interrupts-extended".spec_bytes(), 0, 2);
    lemma_range((0x1000_1000 + i * 0x1000) as u64, 0x1000);
    lemma_interrupt(seq![2u32, (1 + i) as u32], (1 + i) as u32);
    assert(bytes.push(0).subrange(0, bytes.len() as int) =~= bytes);
}

#[verifier::spinoff_prover]
#[verifier::rlimit(40)]
proof fn lemma_soc(
    ram_size: u64,
    cmdline: &str,
    initrd_start: u64,
    initrd_end: u64,
    n_virtio: nat,
)
    ensures
        node_at(
            virt_tree(ram_size, cmdline, initrd_start, initrd_end, n_virtio),
            seq!["soc"],
        ) == Some(soc_node(n_virtio)),
{
    let tree = virt_tree(ram_size, cmdline, initrd_start, initrd_end, n_virtio);
    reveal_with_fuel(node_at, 2);
    reveal_strlit("chosen");
    reveal_strlit("cpus");
    reveal_strlit("memory@80000000");
    reveal_strlit("soc");
    assert("soc"@.len() == 3);
    lemma_apart("chosen", "soc");
    lemma_apart("cpus", "soc");
    lemma_apart("memory@80000000", "soc");
    lemma_node(tree.children, "soc".spec_bytes(), 0, 3);
    assert(seq!["soc"].drop_first() =~= Seq::<&str>::empty());
}

/// Whether the device of this name has these registers and, where a source is
/// given, this interrupt.
pub open spec fn has_registers(
    tree: FdtNode,
    name: &str,
    base: int,
    size: int,
    source: Option<int>,
) -> bool {
    let reg = value_at(tree, seq!["soc", name], "reg");
    let irq = value_at(tree, seq!["soc", name], "interrupts-extended");
    &&& reg is Some && is_range(reg->0, base, size)
    &&& source matches Some(i) ==> irq is Some && is_interrupt(irq->0, i)
}

proof fn lemma_has_registers(
    tree: FdtNode,
    name: &str,
    node: FdtNode,
    base: int,
    size: int,
    source: Option<int>,
)
    requires
        node_at(tree, seq!["soc", name]) == Some(node),
        placed(node, base, size, source),
    ensures
        has_registers(tree, name, base, size, source),
{
}

/// The kernel finds its console, the interrupt controllers, the clock and the
/// test finisher, each with its registers and its interrupt source.
#[verifier::spinoff_prover]
#[verifier::rlimit(40)]
pub proof fn law_kernel_finds_its_controllers(
    ram_size: u64,
    cmdline: &str,
    initrd_start: u64,
    initrd_end: u64,
    n_virtio: nat,
)
    ensures
        ({
            let tree = virt_tree(ram_size, cmdline, initrd_start, initrd_end, n_virtio);
            &&& has_registers(tree, "serial@10000000", 0x1000_0000, 0x100, Some(10))
            &&& has_registers(tree, "plic@c000000", 0xc00_0000, 0x400_0000, None)
            &&& has_registers(tree, "clint@2000000", 0x200_0000, 0x1_0000, None)
            &&& has_registers(tree, "rtc@101000", 0x10_1000, 0x1000, Some(11))
            &&& has_registers(tree, "test@100000", 0x10_0000, 0x1000, None)
        }),
{
    let tree = virt_tree(ram_size, cmdline, initrd_start, initrd_end, n_virtio);
    lemma_fixed(n_virtio);
    lemma_controllers();
    lemma_serial();
    lemma_device(ram_size, cmdline, initrd_start, initrd_end, n_virtio, "serial@10000000", 3);
    lemma_has_registers(
        tree,
        "serial@10000000",
        serial_node(),
        0x1000_0000,
        0x100,
        Some(10),
    );
    lemma_device(ram_size, cmdline, initrd_start, initrd_end, n_virtio, "plic@c000000", 6);
    lemma_has_registers(tree, "plic@c000000", plic_node(), 0xc00_0000, 0x400_0000, None);
    lemma_device(ram_size, cmdline, initrd_start, initrd_end, n_virtio, "clint@2000000", 5);
    lemma_has_registers(tree, "clint@2000000", clint_node(), 0x200_0000, 0x1_0000, None);
    lemma_device(ram_size, cmdline, initrd_start, initrd_end, n_virtio, "rtc@101000", 4);
    lemma_has_registers(tree, "rtc@101000", rtc_node(), 0x10_1000, 0x1000, Some(11));
    lemma_device(ram_size, cmdline, initrd_start, initrd_end, n_virtio, "test@100000", 0);
    lemma_has_registers(tree, "test@100000", test_node(), 0x10_0000, 0x1000, None);
}

/// The console, the interrupt controllers, the clock and the test finisher are
/// where the tree says: the bus selects them in their register ranges, and those
/// that have one raise their interrupt source.
pub proof fn law_controllers_are_where_the_tree_says(off: u64, bus: BusView)
    requires
        bus.virtio.len() <= 8,
    ensures
        off < 0x100 ==> region_of((0x1000_0000 + off) as u64) == Region::Uart(off),
        off < 0x400_0000 ==> region_of((0xc00_0000 + off) as u64) == Region::Plic(off),
        off < 0x1_0000 ==> region_of((0x200_0000 + off) as u64) == Region::Clint(off),
        off < 0x1000 ==> region_of((0x10_1000 + off) as u64) == Region::Rtc(off),
        off < 0x1000 ==> region_of((0x10_0000 + off) as u64) == Region::Test,
        bus.line(10) <==> bus.uart.irq(),
        bus.line(11) <==> bus.rtc_irq,
{
}

/// Whether a node describes the virtio device number `i`.
pub open spec fn describes_device(node: FdtNode, i: int) -> bool {
    let reg = value_from(node.props, "reg".spec_bytes(), 0);
    let irq = value_from(node.props, "interrupts-extended".spec_bytes(), 0);
    let kind = value_from(node.props, "compatible".spec_bytes(), 0);
    &&& reg is Some && is_range(reg->0, 0x1000_1000 + i * 0x1000, 0x1000)
    &&& irq is Some && is_interrupt(irq->0, i + 1)
    &&& kind is Some && is_string(kind->0, "virtio,mmio".spec_bytes())
}

proof fn lemma_describes(n: nat, i: int)
    requires
        0 <= i < n <= 8,
    ensures
        soc_node(n).children.len() == 7 + n,
        describes_device(soc_node(n).children[7 + i], i),
{
    lemma_fixed(n);
    lemma_virtio(i);
    assert(soc_node(n).children[7 + i] == virtio_node(i));
}

proof fn lemma_virtio_region(i: int, off: u64)
    requires
        0 <= i < 8,
        off < 0x1000,
    ensures
        region_of((0x1000_1000 + i * 0x1000 + off) as u64) == Region::Virtio(i as u64, off),
{
}

/// Whether a tree has a node for the virtio device number `i` among its devices.
pub open spec fn has_device(tree: FdtNode, i: int) -> bool {
    node_at(tree, seq!["soc"]) matches Some(soc) && exists|k: int|
        0 <= k < soc.children.len() && describes_device(#[trigger] soc.children[k], i)
}

proof fn lemma_has_device(tree: FdtNode, soc: FdtNode, k: int, i: int)
    requires
        node_at(tree, seq!["soc"]) == Some(soc),
        0 <= k < soc.children.len(),
        describes_device(soc.children[k], i),
    ensures
        has_device(tree, i),
{
    let found = node_at(tree, seq!["soc"])->0;
    assert(found == soc);
    assert(describes_device(found.children[k], i));
}

/// The kernel finds every virtio device: there is a node for each, with its
/// register range and its interrupt source.
#[verifier::spinoff_prover]
#[verifier::rlimit(40)]
pub proof fn law_kernel_finds_its_devices(
    ram_size: u64,
    cmdline: &str,
    initrd_start: u64,
    initrd_end: u64,
    n_virtio: nat,
    i: int,
)
    requires
        0 <= i < n_virtio,
        n_virtio <= 8,
    ensures
        has_device(virt_tree(ram_size, cmdline, initrd_start, initrd_end, n_virtio), i),
{
    lemma_soc(ram_size, cmdline, initrd_start, initrd_end, n_virtio);
    lemma_describes(n_virtio, i);
    lemma_has_device(
        virt_tree(ram_size, cmdline, initrd_start, initrd_end, n_virtio),
        soc_node(n_virtio),
        7 + i,
        i,
    );
}

/// Virtio devices are where the tree says: the bus selects device `i` in its
/// register range, and it raises its interrupt source.
pub proof fn law_devices_are_where_the_tree_says(i: int, off: u64, bus: BusView)
    requires
        0 <= i < 8,
        off < 0x1000,
    ensures
        region_of((0x1000_1000 + i * 0x1000 + off) as u64) == Region::Virtio(i as u64, off),
        i < bus.virtio.len() ==> (bus.line(i + 1) <==> bus.virtio[i].int_status != 0),
{
    lemma_virtio_region(i, off);
}

} // verus!
