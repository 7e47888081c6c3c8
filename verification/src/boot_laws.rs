//! What a machine finds when it starts: its images in memory, its device tree,
//! and the hart where the kernel or the firmware begins.

use vstd::prelude::*;
use crate::board::virt_tree;
use crate::boot::{Layout, VirtImages};
use crate::bytes::{le_value, spliced};
use crate::dtb::blob;
use crate::machine::{booted, MachineView, Mode};
use crate::virtio::BackendView;

verus! {

/// Where a guest-physical address lies in RAM, which starts at 0x8000_0000.
pub open spec fn offset(addr: u64) -> int {
    addr - 0x8000_0000
}

/// Whether `bytes` stand in RAM at a guest-physical address.
pub open spec fn stands_at(ram: Seq<u8>, addr: u64, bytes: Seq<u8>) -> bool {
    &&& 0 <= offset(addr)
    &&& offset(addr) + bytes.len() <= ram.len()
    &&& ram.subrange(offset(addr), offset(addr) + bytes.len()) == bytes
}

/// A machine with these images whose boot data does not overlap: the firmware
/// information ends below the ramdisk, and all of it lies above the kernel.
pub open spec fn well_laid(m: MachineView, ram: int, images: &VirtImages, direct: bool) -> bool {
    &&& booted(m, ram, images, direct)
    &&& crate::boot::boot_fits(ram, images)
    &&& 0x20_0000 + images.kernel@.len() <= offset(m.cpu.x[12])
    &&& images.opensbi@.len() <= 0x20_0000
}

proof fn lemma_floor(a: int, b: int, unit: int)
    requires
        unit > 0,
        b >= 0,
    ensures
        0 <= crate::boot::floor_below(a, b, unit),
        a >= b ==> crate::boot::floor_below(a, b, unit) <= a - b,
        a < b ==> crate::boot::floor_below(a, b, unit) == 0,
{
    if a >= b {
        vstd::arithmetic::div_mod::lemma_fundamental_div_mod(a - b, unit);
        vstd::arithmetic::mul::lemma_mul_is_commutative((a - b) / unit, unit);
        vstd::arithmetic::div_mod::lemma_div_pos_is_pos(a - b, unit);
        vstd::arithmetic::mul::lemma_mul_nonnegative((a - b) / unit, unit);
        vstd::arithmetic::div_mod::lemma_mod_bound(a - b, unit);
    }
}

proof fn lemma_layout(ram: int, images: &VirtImages)
    requires
        crate::boot::boot_fits(ram, images),
        0x20_0000 <= crate::boot::layout_of(ram, images).info,
    ensures
        ({
            let l = crate::boot::layout_of(ram, images);
            &&& l.info + 0x1000 <= l.initrd
            &&& l.initrd + (match images.initrd {
                Some(bytes) => bytes@.len() as int,
                None => 0,
            }) <= l.dtb
        }),
{
    let l = crate::boot::layout_of(ram, images);
    let draft = blob(virt_tree(ram as u64, images.cmdline, 0, 0, images.device_count()));
    lemma_floor(ram - 0x20_0000, draft.len() as int, 0x1000);
    lemma_floor(l.initrd, 0x1000, 0x1000);
    if let Some(bytes) = images.initrd {
        lemma_floor(l.dtb, bytes@.len() as int, 0x10_0000);
    }
}

proof fn lemma_placed(
    ram: nat,
    opensbi: Seq<u8>,
    kernel: Seq<u8>,
    initrd: Option<Seq<u8>>,
    dtb: Seq<u8>,
    info: Seq<u8>,
    l: Layout,
)
    requires
        opensbi.len() <= 0x20_0000,
        0x20_0000 + kernel.len() <= l.info,
        l.info + info.len() <= l.initrd,
        l.initrd + (match initrd {
            Some(bytes) => bytes.len() as int,
            None => 0,
        }) <= l.dtb,
        l.dtb + dtb.len() <= ram,
    ensures
        ({
            let zeros = Seq::new(ram, |i: int| 0u8);
            let loaded = spliced(spliced(zeros, 0, opensbi), 0x20_0000, kernel);
            let with_initrd = match initrd {
                Some(bytes) => spliced(loaded, l.initrd, bytes),
                None => loaded,
            };
            let mem = spliced(spliced(with_initrd, l.dtb, dtb), l.info, info);
            &&& mem.len() == ram
            &&& mem.subrange(0, opensbi.len() as int) == opensbi
            &&& mem.subrange(0x20_0000, 0x20_0000 + kernel.len() as int) == kernel
            &&& mem.subrange(l.dtb, l.dtb + dtb.len()) == dtb
            &&& mem.subrange(l.info, l.info + info.len()) == info
            &&& initrd matches Some(bytes) ==> mem.subrange(l.initrd, l.initrd + bytes.len())
                == bytes
        }),
{
    let zeros = Seq::new(ram, |i: int| 0u8);
    let loaded = spliced(spliced(zeros, 0, opensbi), 0x20_0000, kernel);
    let with_initrd = match initrd {
        Some(bytes) => spliced(loaded, l.initrd, bytes),
        None => loaded,
    };
    let mem = spliced(spliced(with_initrd, l.dtb, dtb), l.info, info);
    assert(mem.subrange(0, opensbi.len() as int) =~= opensbi);
    assert(mem.subrange(0x20_0000, 0x20_0000 + kernel.len() as int) =~= kernel);
    assert(mem.subrange(l.dtb, l.dtb + dtb.len()) =~= dtb);
    assert(mem.subrange(l.info, l.info + info.len()) =~= info);
    if let Some(bytes) = initrd {
        assert(mem.subrange(l.initrd, l.initrd + bytes.len()) =~= bytes);
    }
}

proof fn lemma_info()
    ensures
        crate::boot::firmware_info().len() == 48,
        le_value(crate::boot::firmware_info().subrange(0, 8)) == 0x4942_534f,
        le_value(crate::boot::firmware_info().subrange(8, 16)) == 2,
        le_value(crate::boot::firmware_info().subrange(16, 24)) == 0x8020_0000,
        le_value(crate::boot::firmware_info().subrange(24, 32)) == 1,
{
    crate::bytes::lemma_byte_spans();
    crate::bytes::lemma_le_bytes_len(0x4942_534f, 8);
    crate::bytes::lemma_le_bytes_len(2, 8);
    crate::bytes::lemma_le_bytes_len(0x8020_0000, 8);
    crate::bytes::lemma_le_bytes_len(1, 8);
    crate::bytes::lemma_le_bytes_len(0, 8);
    crate::bytes::lemma_le_round_trip(0x4942_534f, 8);
    crate::bytes::lemma_le_round_trip(2, 8);
    crate::bytes::lemma_le_round_trip(0x8020_0000, 8);
    crate::bytes::lemma_le_round_trip(1, 8);
    let info = crate::boot::firmware_info();
    assert(info.len() == 48);
    assert(info.subrange(0, 8) =~= crate::bytes::le_bytes(0x4942_534f, 8));
    assert(info.subrange(8, 16) =~= crate::bytes::le_bytes(2, 8));
    assert(info.subrange(16, 24) =~= crate::bytes::le_bytes(0x8020_0000, 8));
    assert(info.subrange(24, 32) =~= crate::bytes::le_bytes(1, 8));
}

proof fn lemma_memory(m: MachineView, ram: int, images: &VirtImages, direct: bool)
    requires
        well_laid(m, ram, images, direct),
    ensures
        ({
            let l = crate::boot::layout_of(ram, images);
            let mem = m.bus.mem.ram;
            let info = crate::boot::firmware_info();
            &&& mem.len() == ram
            &&& 0 <= l.info && l.info + 48 <= l.initrd && l.initrd <= l.dtb
            &&& l.dtb + m.dtb.len() <= ram
            &&& mem.subrange(0, images.opensbi@.len() as int) == images.opensbi@
            &&& mem.subrange(0x20_0000, 0x20_0000 + images.kernel@.len() as int)
                == images.kernel@
            &&& mem.subrange(l.dtb, l.dtb + m.dtb.len()) == m.dtb
            &&& mem.subrange(l.info, l.info + 48) == info
            &&& images.initrd matches Some(bytes) ==> l.initrd + bytes@.len() <= l.dtb
                && mem.subrange(l.initrd, l.initrd + bytes@.len()) == bytes@
        }),
{
    let l = crate::boot::layout_of(ram, images);
    lemma_layout(ram, images);
    lemma_info();
    let initrd = match images.initrd {
        Some(bytes) => Some(bytes@),
        None => None,
    };
    lemma_placed(
        ram as nat,
        images.opensbi@,
        images.kernel@,
        initrd,
        m.dtb,
        crate::boot::firmware_info(),
        l,
    );
}

/// The firmware, the kernel, the device tree and the initial ramdisk stand in
/// memory as they are, the tree where a1 says.
#[verifier::spinoff_prover]
#[verifier::rlimit(40)]
pub proof fn law_images_are_in_memory(m: MachineView, ram: int, images: &VirtImages, direct: bool)
    requires
        well_laid(m, ram, images, direct),
    ensures
        stands_at(m.bus.mem.ram, 0x8000_0000, images.opensbi@),
        stands_at(m.bus.mem.ram, 0x8020_0000, images.kernel@),
        stands_at(m.bus.mem.ram, m.cpu.x[11], m.dtb),
        images.initrd matches Some(bytes) ==> exists|start: u64|
            #[trigger] stands_at(m.bus.mem.ram, start, bytes@) && m.dtb == blob(
                virt_tree(
                    ram as u64,
                    images.cmdline,
                    start,
                    (start + bytes@.len()) as u64,
                    images.device_count(),
                ),
            ),
        images.initrd is None ==> m.dtb == blob(
            virt_tree(ram as u64, images.cmdline, 0, 0, images.device_count()),
        ),
        m.bus.mem.ram.len() == ram,
{
    let l = crate::boot::layout_of(ram, images);
    lemma_memory(m, ram, images, direct);
    if let Some(bytes) = images.initrd {
        let start = (0x8000_0000 + l.initrd) as u64;
        assert(stands_at(m.bus.mem.ram, start, bytes@));
    }
}

/// The hart begins at the kernel, in supervisor mode, or at the firmware, in
/// machine mode, with a0 = 0, which is its number, and no other register but a1
/// and a2 set. It has retired nothing and the clock stands at zero.
pub proof fn law_hart_begins_at_the_entry(
    m: MachineView,
    ram: int,
    images: &VirtImages,
    direct: bool,
    r: int,
)
    requires
        booted(m, ram, images, direct),
        0 <= r < 32,
        r != 11,
        r != 12,
    ensures
        direct ==> m.cpu.pc == 0x8020_0000,
        !direct ==> m.cpu.pc == 0x8000_0000,
        m.cpu.x[r] == 0,
        m.cpu.sys is Some,
        direct ==> m.cpu.sys->0.mode == Mode::Supervisor,
        !direct ==> m.cpu.sys->0.mode == Mode::Machine,
        m.cpu.sys->0.satp == 0,
        direct ==> m.cpu.sys->0.mideleg == 0x222,
        m.cpu.host_sbi == direct,
        m.bus.direct_sbi == direct,
        m.cpu.insn_count == 0,
        m.bus.mtime == 0,
        m.bus.deadline == u64::MAX,
        !m.power_off && !m.bus.power_off,
{
}

/// The firmware finds in a2 where the kernel is: a record that starts with its
/// magic number and version 2, and gives the kernel's address and the mode to
/// enter it in, which is supervisor mode.
pub proof fn law_firmware_finds_the_kernel(
    m: MachineView,
    ram: int,
    images: &VirtImages,
    direct: bool,
)
    requires
        well_laid(m, ram, images, direct),
    ensures
        ({
            let at = offset(m.cpu.x[12]);
            let mem = m.bus.mem.ram;
            &&& 0 <= at && at + 48 <= mem.len()
            &&& le_value(mem.subrange(at, at + 8)) == 0x4942_534f
            &&& le_value(mem.subrange(at + 8, at + 16)) == 2
            &&& le_value(mem.subrange(at + 16, at + 24)) == 0x8020_0000
            &&& le_value(mem.subrange(at + 24, at + 32)) == 1
        }),
{
    let at = offset(m.cpu.x[12]);
    let mem = m.bus.mem.ram;
    let info = crate::boot::firmware_info();
    lemma_memory(m, ram, images, direct);
    lemma_info();
    assert(mem.subrange(at, at + 48) == info);
    assert(mem.subrange(at, at + 8) =~= info.subrange(0, 8));
    assert(mem.subrange(at + 8, at + 16) =~= info.subrange(8, 16));
    assert(mem.subrange(at + 16, at + 24) =~= info.subrange(16, 24));
    assert(mem.subrange(at + 24, at + 32) =~= info.subrange(24, 32));
}

/// A machine has the disk and the network device that it was given, the disk
/// first: a disk in memory holds the image, one that the host keeps has its size,
/// and the network device has its address.
pub proof fn law_devices_are_those_given(
    m: MachineView,
    ram: int,
    images: &VirtImages,
    direct: bool,
)
    requires
        booted(m, ram, images, direct),
    ensures
        ({
            let disks: int = if images.disk is Some || images.external_disk_size is Some {
                1
            } else {
                0
            };
            let nets: int = if images.net is Some {
                1
            } else {
                0
            };
            &&& m.bus.virtio.len() == disks + nets
            &&& images.device_count() == disks + nets
            &&& images.disk matches Some(disk) ==> m.bus.virtio[0].backend == (BackendView::Block {
                disk: disk@,
            })
            &&& images.disk is None ==> (images.external_disk_size matches Some(size)
                ==> m.bus.virtio[0].backend == (BackendView::ExternalBlock { size, pending: None }))
            &&& images.net matches Some(mac) ==> (m.bus.virtio[disks].backend
                matches BackendView::Net { mac: address, inbox, outbox } && address == mac@
                && inbox.len() == 0 && outbox.len() == 0)
        }),
{
}

} // verus!
