//! Where the images of a machine go in guest RAM before it starts.

use vstd::prelude::*;
use crate::board::{build_virt_fdt, virt_tree};
use crate::bytes::{le_bytes, push_le, push_zeros, spliced, write_at};
use crate::dtb::blob;
use crate::ram::RAM_BASE;
use crate::virtio::{Backend, BackendView, DeviceView, VirtioDev};

verus! {

/// Kernel image at RAM_BASE + 2 MiB.
pub const KERNEL_OFFSET: u64 = 0x20_0000;

/// Space kept free at the very top of RAM.
pub const TOP_LAYOUT_MARGIN: u64 = 0x20_0000;

pub const FW_DYNAMIC_INFO_SIZE: u64 = 0x1000;

/// What a machine boots from.
pub struct VirtImages<'a> {
    pub opensbi: &'a [u8],
    pub kernel: &'a [u8],
    pub cmdline: &'a str,
    pub initrd: Option<&'a [u8]>,
    pub disk: Option<Vec<u8>>,
    /// Size of a native disk image. When present, the block device keeps the
    /// image outside guest RAM and exposes requests through the host ABI.
    pub external_disk_size: Option<u64>,
    /// MAC address for a layer-2 virtio-net device.
    pub net: Option<[u8; 6]>,
}

impl VirtImages<'_> {
    /// The number of virtio devices.
    pub open spec fn device_count(&self) -> nat {
        (if self.disk is Some || self.external_disk_size is Some {
            1nat
        } else {
            0
        }) + (if self.net is Some {
            1nat
        } else {
            0
        })
    }

    /// The backends of the virtio devices: a disk first, then a network device.
    pub open spec fn backends(&self) -> Seq<BackendView> {
        let disks: Seq<BackendView> = match (self.disk, self.external_disk_size) {
            (Some(disk), _) => seq![BackendView::Block { disk: disk@ }],
            (None, Some(size)) => seq![BackendView::ExternalBlock { size, pending: None }],
            (None, None) => Seq::empty(),
        };
        match self.net {
            Some(mac) => disks.push(
                BackendView::Net { mac: mac@, inbox: Seq::empty(), outbox: Seq::empty() },
            ),
            None => disks,
        }
    }

    /// Number of virtio devices.
    pub fn n_virtio(&self) -> (n: usize)
        ensures
            n == self.device_count(),
            n <= 2,
    {
        let disks: usize = if self.disk.is_some() || self.external_disk_size.is_some() {
            1
        } else {
            0
        };
        let nets: usize = if self.net.is_some() {
            1
        } else {
            0
        };
        disks + nets
    }
}

/// The largest multiple of `unit` that is at most `a - b`, or 0 if `a < b`.
pub open spec fn floor_below(a: int, b: int, unit: int) -> int {
    if a < b {
        0
    } else {
        (a - b) / unit * unit
    }
}

fn aligned_below(a: usize, b: usize, unit: usize) -> (r: usize)
    requires
        unit > 0,
    ensures
        r == floor_below(a as int, b as int, unit as int),
        r <= a,
        r + b <= a || r == 0,
{
    if a < b {
        return 0;
    }
    let d: usize = a - b;
    proof {
        vstd::arithmetic::div_mod::lemma_fundamental_div_mod(d as int, unit as int);
        vstd::arithmetic::mul::lemma_mul_is_commutative(d as int / unit as int, unit as int);
    }
    d - d % unit
}

/// Offsets in RAM of what is placed near its top. Layout from the top down: a
/// margin, the device tree, the initial ramdisk, the firmware information.
pub struct Layout {
    pub dtb: int,
    pub initrd: int,
    pub info: int,
}

/// The device tree of a machine whose initial ramdisk is at the given offset.
pub open spec fn machine_tree(ram: int, images: &VirtImages, initrd: int) -> Seq<u8> {
    match images.initrd {
        Some(bytes) => blob(
            virt_tree(
                ram as u64,
                images.cmdline,
                (RAM_BASE + initrd) as u64,
                (RAM_BASE + initrd + bytes@.len()) as u64,
                images.device_count(),
            ),
        ),
        None => blob(virt_tree(ram as u64, images.cmdline, 0, 0, images.device_count())),
    }
}

/// Where the images of a machine with `ram` bytes of RAM go: the device tree
/// page aligned below the margin, the initial ramdisk at a multiple of 1 MiB
/// below it, and the firmware information page aligned below that.
pub open spec fn layout_of(ram: int, images: &VirtImages) -> Layout {
    let draft = blob(virt_tree(ram as u64, images.cmdline, 0, 0, images.device_count()));
    let dtb = floor_below(ram - TOP_LAYOUT_MARGIN, draft.len() as int, 0x1000);
    let initrd = match images.initrd {
        Some(bytes) => floor_below(dtb, bytes@.len() as int, 0x10_0000),
        None => dtb,
    };
    Layout { dtb, initrd, info: floor_below(initrd, FW_DYNAMIC_INFO_SIZE as int, 0x1000) }
}

/// Whether guest RAM of `ram` bytes takes the kernel, the boot data at the top,
/// and every image where it goes.
pub open spec fn boot_fits(ram: int, images: &VirtImages) -> bool {
    let layout = layout_of(ram, images);
    &&& KERNEL_OFFSET + images.kernel@.len() + TOP_LAYOUT_MARGIN + FW_DYNAMIC_INFO_SIZE <= ram
    &&& images.opensbi@.len() <= ram
    &&& images.initrd matches Some(bytes) ==> {
        &&& layout.initrd + bytes@.len() <= ram
        &&& RAM_BASE + layout.initrd + bytes@.len() <= u64::MAX
    }
    &&& layout.dtb + machine_tree(ram, images, layout.initrd).len() <= ram
    &&& RAM_BASE + ram <= u64::MAX
}

/// The firmware information that OpenSBI (fw_dynamic) reads: its magic, its
/// version, the kernel's address, supervisor mode, no options, boot hart 0.
pub open spec fn firmware_info() -> Seq<u8> {
    le_bytes(0x4942_534f, 8) + le_bytes(2, 8) + le_bytes((RAM_BASE + KERNEL_OFFSET) as nat, 8)
        + le_bytes(1, 8) + le_bytes(0, 8) + le_bytes(0, 8)
}

/// Guest RAM before the machine starts: the images over zeros, each placed over
/// what came before it.
pub open spec fn boot_ram(ram: int, images: &VirtImages) -> Seq<u8> {
    let layout = layout_of(ram, images);
    let zeros = Seq::new(ram as nat, |i: int| 0u8);
    let loaded = spliced(
        spliced(zeros, 0, images.opensbi@),
        KERNEL_OFFSET as int,
        images.kernel@,
    );
    let with_initrd = match images.initrd {
        Some(bytes) => spliced(loaded, layout.initrd, bytes@),
        None => loaded,
    };
    spliced(
        spliced(with_initrd, layout.dtb, machine_tree(ram, images, layout.initrd)),
        layout.info,
        firmware_info(),
    )
}

/// What a machine starts from.
pub struct BootState {
    pub ram: Vec<u8>,
    pub dtb: Vec<u8>,
    pub dtb_addr: u64,
    pub info_addr: u64,
}

fn checked_sum(a: usize, b: usize) -> (sum: Option<usize>)
    ensures
        sum is Some <==> a + b <= usize::MAX,
        sum matches Some(s) ==> s == a + b,
{
    a.checked_add(b)
}

/// Lay out guest RAM. `None` if the images do not fit.
pub fn load_images(ram_bytes: u64, images: &VirtImages) -> (state: Option<BootState>)
    ensures
        state is Some <==> ram_bytes <= usize::MAX && boot_fits(ram_bytes as int, images),
        state matches Some(s) ==> {
            let layout = layout_of(ram_bytes as int, images);
            &&& s.ram@ == boot_ram(ram_bytes as int, images)
            &&& s.ram@.len() == ram_bytes
            &&& s.dtb@ == machine_tree(ram_bytes as int, images, layout.initrd)
            &&& s.dtb_addr == RAM_BASE + layout.dtb
            &&& s.info_addr == RAM_BASE + layout.info
        },
{
    if ram_bytes > usize::MAX as u64 || ram_bytes > u64::MAX - RAM_BASE {
        return None;
    }
    let top: usize = ram_bytes as usize;
    let kernel_len: usize = images.kernel.len();
    if top < 0x40_1000 || kernel_len > top - 0x40_1000 || images.opensbi.len() > top {
        return None;
    }
    let n_virtio: usize = images.n_virtio();
    let draft: Vec<u8> = build_virt_fdt(ram_bytes, images.cmdline, 0, 0, n_virtio);
    // Place initrd + DTB near the TOP of RAM (as QEMU/U-Boot do) so the
    // kernel's early allocations near the Image don't clobber them.
    let dtb_off: usize = aligned_below(top - 0x20_0000, draft.len(), 0x1000);
    let mut below: usize = dtb_off;
    let mut initrd_start: u64 = 0;
    let mut initrd_end: u64 = 0;
    if let Some(bytes) = images.initrd {
        below = aligned_below(dtb_off, bytes.len(), 0x10_0000);
        match checked_sum(below, bytes.len()) {
            Some(end) if end <= top => {},
            _ => {
                return None;
            },
        }
        initrd_start = RAM_BASE + below as u64;
        initrd_end = initrd_start + bytes.len() as u64;
    }
    let info_off: usize = aligned_below(below, 0x1000, 0x1000);
    // Rebuild the DTB now that initrd addresses are known.
    let dtb: Vec<u8> = build_virt_fdt(
        ram_bytes,
        images.cmdline,
        initrd_start,
        initrd_end,
        n_virtio,
    );
    match checked_sum(dtb_off, dtb.len()) {
        Some(end) if end <= top => {},
        _ => {
            return None;
        },
    }
    let mut ram: Vec<u8> = Vec::new();
    push_zeros(&mut ram, top);
    assert(ram@ =~= Seq::new(top as nat, |i: int| 0u8));
    write_at(ram.as_mut_slice(), 0, images.opensbi);
    write_at(ram.as_mut_slice(), 0x20_0000, images.kernel);
    if let Some(bytes) = images.initrd {
        write_at(ram.as_mut_slice(), below, bytes);
    }
    write_at(ram.as_mut_slice(), dtb_off, dtb.as_slice());
    // fw_jump.bin bakes the FDT/next-stage addresses at build time and ignores
    // a1, which makes the kernel fault on a bogus DTB pointer; fw_dynamic
    // forwards the real DTB in a1 and jumps to the address we specify here.
    let mut info: Vec<u8> = Vec::new();
    push_le(&mut info, 0x4942_534f, 8);
    assert(info@ =~= le_bytes(0x4942_534f, 8));
    push_le(&mut info, 2, 8);
    push_le(&mut info, RAM_BASE + KERNEL_OFFSET, 8);
    push_le(&mut info, 1, 8);
    push_le(&mut info, 0, 8);
    push_le(&mut info, 0, 8);
    proof {
        crate::bytes::lemma_le_bytes_len(0x4942_534f, 8);
        crate::bytes::lemma_le_bytes_len(2, 8);
        crate::bytes::lemma_le_bytes_len((RAM_BASE + KERNEL_OFFSET) as nat, 8);
        crate::bytes::lemma_le_bytes_len(1, 8);
        crate::bytes::lemma_le_bytes_len(0, 8);
        assert(info@.len() == 48);
    }
    write_at(ram.as_mut_slice(), info_off, info.as_slice());
    Some(
        BootState {
            ram,
            dtb,
            dtb_addr: RAM_BASE + dtb_off as u64,
            info_addr: RAM_BASE + info_off as u64,
        },
    )
}

/// The virtio devices of a machine. Slot i takes PLIC source i + 1, matching
/// the device tree.
pub fn attach_devices(
    disk: Option<Vec<u8>>,
    external_disk_size: Option<u64>,
    net: Option<[u8; 6]>,
) -> (virtio: Vec<VirtioDev>)
    ensures
        virtio@.len() <= 2,
        forall|i: int| 0 <= i < virtio@.len() ==> (#[trigger] virtio@[i]).wf(),
        forall|images: VirtImages|
            images.disk == disk && images.external_disk_size == external_disk_size && images.net
                == net ==> virtio@.len() == images.device_count() && virtio@.map_values(
                |dev: VirtioDev| dev@.backend,
            ) == #[trigger] images.backends(),
        forall|i: int|
            0 <= i < virtio@.len() ==> (#[trigger] virtio@[i])@ == fresh_device(
                virtio@[i]@.backend,
            ),
{
    let mut virtio: Vec<VirtioDev> = Vec::new();
    if let Some(disk) = disk {
        virtio.push(VirtioDev::new(Backend::Block { disk }));
    } else if let Some(size) = external_disk_size {
        virtio.push(VirtioDev::new(Backend::ExternalBlock { size, pending: None }));
    }
    if let Some(mac) = net {
        let backend = Backend::Net { mac, inbox: Vec::new(), outbox: Vec::new() };
        assert(backend@->inbox =~= Seq::empty());
        assert(backend@->outbox =~= Seq::empty());
        virtio.push(VirtioDev::new(backend));
    }
    proof {
        assert forall|images: VirtImages|
            images.disk == disk && images.external_disk_size == external_disk_size && images.net
                == net implies virtio@.len() == images.device_count() && virtio@.map_values(
            |dev: VirtioDev| dev@.backend,
        ) == #[trigger] images.backends() by {
            assert(virtio@.map_values(|dev: VirtioDev| dev@.backend) =~= images.backends());
        }
    }
    virtio
}

/// A device in reset.
pub open spec fn fresh_device(backend: BackendView) -> DeviceView {
    DeviceView {
        backend,
        status: 0,
        device_features_sel: 0,
        driver_features_sel: 0,
        queue_sel: 0,
        queues: seq![crate::virtio::empty_queue(), crate::virtio::empty_queue()],
        int_status: 0,
        next_id: 1,
    }
}

} // verus!
