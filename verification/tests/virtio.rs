//! Virtio devices driven through hand-built virtqueues in a small guest RAM.

use rv64_system::dma::guest_write;
use rv64_system::virtio::{
    Backend, BlockRequestKind, VirtioDev, MAX_DISK_OPERATION, MAX_DISK_SEGMENTS, NET_HDR_LEN,
    NET_MAX_FRAME, NET_QUEUE_LIMIT, SECTOR, VIRTIO_BLK_F_SEG_MAX, VIRTIO_BLK_F_SIZE_MAX,
    VIRTIO_BLK_T_FLUSH, VIRTIO_BLK_T_IN, VIRTIO_BLK_T_OUT,
};
use rv64_system::JitPageState;

// A small guest RAM with a hand-built split virtqueue, so these tests
// exercise the same path a real driver takes: descriptor chain in, reply
// scattered into the writable descriptors, entry on the used ring.
const BASE: u64 = 0x8000_0000;
const DESC: usize = 0x1000;
const AVAIL: usize = 0x2000;
const USED: usize = 0x3000;
const REQ: usize = 0x4000;
const NUM: u32 = 8;

/// Ring addresses for one queue. Queue 0 lives at the low set; a
/// two-queue device (net) puts queue 1 at the high set.
struct Ring {
    desc: usize,
    avail: usize,
    used: usize,
}
const RING0: Ring = Ring {
    desc: DESC,
    avail: AVAIL,
    used: USED,
};
const RING1: Ring = Ring {
    desc: 0x6000,
    avail: 0x7000,
    used: 0x8000,
};

fn setup_ring(dev: &mut VirtioDev, qi: u32, r: &Ring) {
    dev.write(0x030, qi); // queue_sel
    dev.write(0x038, NUM); // queue_num
    dev.write(0x080, (BASE + r.desc as u64) as u32);
    dev.write(0x084, ((BASE + r.desc as u64) >> 32) as u32);
    dev.write(0x090, (BASE + r.avail as u64) as u32);
    dev.write(0x094, ((BASE + r.avail as u64) >> 32) as u32);
    dev.write(0x0a0, (BASE + r.used as u64) as u32);
    dev.write(0x0a4, ((BASE + r.used as u64) >> 32) as u32);
    dev.write(0x044, 1); // queue_ready
}

fn put_desc_in(
    ram: &mut [u8],
    r: &Ring,
    i: usize,
    addr: usize,
    len: u32,
    flags: u16,
    next: u16,
) {
    let o = r.desc + i * 16;
    ram[o..o + 8].copy_from_slice(&(BASE + addr as u64).to_le_bytes());
    ram[o + 8..o + 12].copy_from_slice(&len.to_le_bytes());
    ram[o + 12..o + 14].copy_from_slice(&flags.to_le_bytes());
    ram[o + 14..o + 16].copy_from_slice(&next.to_le_bytes());
}

/// Put chain head `head` on the avail ring and publish index `n`.
fn publish(ram: &mut [u8], r: &Ring, head: u16, n: u16) {
    let slot = (n as usize - 1) % NUM as usize;
    ram[r.avail + 4 + slot * 2..r.avail + 6 + slot * 2].copy_from_slice(&head.to_le_bytes());
    ram[r.avail + 2..r.avail + 4].copy_from_slice(&n.to_le_bytes());
}

/// (chain head, bytes written) from used-ring entry `n` (1-based).
fn used_entry(ram: &[u8], r: &Ring, n: u16) -> (u32, u32) {
    let slot = (n as usize - 1) % NUM as usize;
    (
        u32_at(ram, r.used + 4 + slot * 8),
        u32_at(ram, r.used + 8 + slot * 8),
    )
}

fn u16_at(ram: &[u8], off: usize) -> u16 {
    u16::from_le_bytes(ram[off..off + 2].try_into().unwrap())
}
fn u32_at(ram: &[u8], off: usize) -> u32 {
    u32::from_le_bytes(ram[off..off + 4].try_into().unwrap())
}

fn process(dev: &mut VirtioDev, qi: usize, ram: &mut [u8]) {
    let mut jit = JitPageState::new(ram.len());
    dev.process(qi, ram, BASE, &mut jit);
}

#[test]
fn block_config_reports_capacity_in_sectors() {
    let mut dev = VirtioDev::new(Backend::Block {
        disk: vec![0u8; 8 * 512],
    });
    assert_eq!(dev.read(0x100), 8);
    assert_eq!(dev.read(0x104), 0);
    assert_eq!(dev.read(0x034), 16);
}

fn block_device() -> (VirtioDev, Vec<u8>) {
    let mut disk = vec![0u8; 4 * SECTOR];
    disk[SECTOR..2 * SECTOR].fill(0x5a);
    (
        VirtioDev::new(Backend::Block { disk }),
        vec![0u8; 64 * 1024],
    )
}

fn submit_block(
    dev: &mut VirtioDev,
    ram: &mut [u8],
    request_type: u32,
    sector: u64,
    writable_data: bool,
) {
    setup_ring(dev, 0, &RING0);
    ram[REQ..REQ + 4].copy_from_slice(&request_type.to_le_bytes());
    ram[REQ + 8..REQ + 16].copy_from_slice(&sector.to_le_bytes());
    put_desc_in(ram, &RING0, 0, REQ, 16, 1, 1);
    put_desc_in(
        ram,
        &RING0,
        1,
        REQ + 0x100,
        SECTOR as u32,
        1 | if writable_data { 2 } else { 0 },
        2,
    );
    put_desc_in(ram, &RING0, 2, REQ + 0x300, 1, 2, 0);
    publish(ram, &RING0, 0, 1);
    process(dev, 0, ram);
}

fn submit_split_block(
    dev: &mut VirtioDev,
    ram: &mut [u8],
    request_type: u32,
    sector: u64,
    writable_data: bool,
    first_len: u32,
) {
    assert!(first_len < SECTOR as u32);
    setup_ring(dev, 0, &RING0);
    ram[REQ..REQ + 4].copy_from_slice(&request_type.to_le_bytes());
    ram[REQ + 8..REQ + 16].copy_from_slice(&sector.to_le_bytes());
    put_desc_in(ram, &RING0, 0, REQ, 16, 1, 1);
    put_desc_in(
        ram,
        &RING0,
        1,
        REQ + 0x100,
        first_len,
        1 | if writable_data { 2 } else { 0 },
        2,
    );
    put_desc_in(
        ram,
        &RING0,
        2,
        REQ + 0x200,
        SECTOR as u32 - first_len,
        1 | if writable_data { 2 } else { 0 },
        3,
    );
    put_desc_in(ram, &RING0, 3, REQ + 0x400, 1, 2, 0);
    publish(ram, &RING0, 0, 1);
    process(dev, 0, ram);
}

#[test]
fn block_reads_a_sector_into_guest_memory() {
    let (mut dev, mut ram) = block_device();
    submit_block(&mut dev, &mut ram, VIRTIO_BLK_T_IN, 1, true);

    assert_eq!(&ram[REQ + 0x100..REQ + 0x100 + SECTOR], &[0x5a; SECTOR]);
    assert_eq!(ram[REQ + 0x300], 0);
    assert_eq!(u16_at(&ram, USED + 2), 1);
}

#[test]
fn block_writes_persist_in_the_backing_image() {
    let (mut dev, mut ram) = block_device();
    ram[REQ + 0x100..REQ + 0x100 + SECTOR].fill(0xa5);
    submit_block(&mut dev, &mut ram, VIRTIO_BLK_T_OUT, 2, false);

    let Backend::Block { disk } = &dev.backend else {
        unreachable!()
    };
    assert_eq!(&disk[2 * SECTOR..3 * SECTOR], &[0xa5; SECTOR]);
    assert_eq!(ram[REQ + 0x300], 0);
}

#[test]
fn block_rejects_requests_beyond_the_image() {
    let (mut dev, mut ram) = block_device();
    submit_block(&mut dev, &mut ram, VIRTIO_BLK_T_IN, 4, true);

    assert_eq!(ram[REQ + 0x300], 1);
    assert_eq!(u16_at(&ram, USED + 2), 1);
}

#[test]
fn a_failed_read_reports_the_status_byte_alone() {
    let (mut dev, mut ram) = block_device();
    submit_block(&mut dev, &mut ram, VIRTIO_BLK_T_IN, 4, true);
    assert_eq!(used_entry(&ram, &RING0, 1), (0, 1));
    assert!(ram[REQ + 0x100..REQ + 0x100 + SECTOR].iter().all(|&byte| byte == 0));
    let (mut dev, mut ram) = block_device();
    submit_block(&mut dev, &mut ram, VIRTIO_BLK_T_IN, 3, true);
    assert_eq!(used_entry(&ram, &RING0, 1), (0, SECTOR as u32 + 1));
}

#[test]
fn chains_are_answered_once_each_in_order() {
    let (mut dev, mut ram) = block_device();
    setup_ring(&mut dev, 0, &RING0);
    let heads = [4u16, 0, 2];
    for (n, head) in heads.iter().enumerate() {
        let at = REQ + 0x400 * n;
        ram[at + 8..at + 16].copy_from_slice(&1u64.to_le_bytes());
        put_desc_in(&mut ram, &RING0, *head as usize, at, 16, 1, head + 1);
        put_desc_in(&mut ram, &RING0, *head as usize + 1, at + 0x100, 1, 2, 0);
        publish(&mut ram, &RING0, *head, n as u16 + 1);
    }
    process(&mut dev, 0, &mut ram);
    assert_eq!(u16_at(&ram, USED + 2), 3);
    for (n, head) in heads.iter().enumerate() {
        assert_eq!(used_entry(&ram, &RING0, n as u16 + 1), (u32::from(*head), 1));
    }
    assert_eq!(dev.queue_debug(0).unwrap().4, 3);
    assert!(dev.irq_pending());
    let before = ram.clone();
    process(&mut dev, 0, &mut ram);
    assert_eq!(ram, before);
}

#[test]
fn requests_have_numbers_of_their_own() {
    let (mut dev, mut ram) = external_block_device();
    submit_block(&mut dev, &mut ram, VIRTIO_BLK_T_IN, 1, true);
    let first = dev.pending_block_request().unwrap().id;
    dev.write(0x070, 0);
    assert!(dev.pending_block_request().is_none());
    submit_block(&mut dev, &mut ram, VIRTIO_BLK_T_IN, 1, true);
    let second = dev.pending_block_request().unwrap();
    assert!(first < second.id);
    assert_eq!(second.offset % 512, 0);
    assert!(second.data().is_empty() && !second.is_empty());
    let (mut next, mut ram) = external_block_device();
    next.number_from(dev.next_number());
    submit_block(&mut next, &mut ram, VIRTIO_BLK_T_OUT, 1, false);
    let third = next.pending_block_request().unwrap();
    assert!(second.id < third.id);
    assert_eq!(third.data().len() as u64, third.len());
}

fn external_block_device() -> (VirtioDev, Vec<u8>) {
    (
        VirtioDev::new(Backend::ExternalBlock {
            size: 4 * SECTOR as u64,
            pending: None,
        }),
        vec![0u8; 64 * 1024],
    )
}

#[test]
fn external_block_advertises_capacity_limits_and_flush() {
    let (mut dev, _) = external_block_device();
    assert_eq!(dev.read(0x100), 4);
    assert_eq!(dev.read(0x108), MAX_DISK_OPERATION as u32);
    assert_eq!(dev.read(0x10c), MAX_DISK_SEGMENTS);
    dev.write(0x014, 0);
    assert_eq!(
        dev.read(0x010),
        (1 << VIRTIO_BLK_F_SIZE_MAX) | (1 << VIRTIO_BLK_F_SEG_MAX) | (1 << 9),
        "VIRTIO_BLK_F_SIZE_MAX | VIRTIO_BLK_F_SEG_MAX | VIRTIO_BLK_F_FLUSH"
    );
    dev.write(0x014, 1);
    assert_eq!(dev.read(0x010), 1, "VIRTIO_F_VERSION_1");
}

#[test]
fn external_block_read_commits_exact_host_data() {
    let (mut dev, mut ram) = external_block_device();
    ram[REQ + 0x100..REQ + 0x100 + SECTOR].fill(0xa5);
    submit_block(&mut dev, &mut ram, VIRTIO_BLK_T_IN, 1, true);

    let request = dev.pending_block_request().expect("pending read");
    assert_eq!(request.kind, BlockRequestKind::Read);
    assert_eq!(request.offset, SECTOR as u64);
    assert_eq!(request.len(), SECTOR as u64);
    assert_eq!(u16_at(&ram, USED + 2), 0, "descriptor stays pending");

    let mut jit = JitPageState::new(ram.len());
    let data = vec![0x5a; SECTOR];
    assert!(dev.complete_block_request(request.id, &data, true, &mut ram, BASE, &mut jit,));
    assert_eq!(&ram[REQ + 0x100..REQ + 0x100 + SECTOR], &data);
    assert_eq!(ram[REQ + 0x300], 0);
    assert_eq!(u16_at(&ram, USED + 2), 1);
    assert_eq!(used_entry(&ram, &RING0, 1), (0, SECTOR as u32 + 1));
    assert!(!dev.has_pending_block_request());
    assert!(dev.irq_pending());
    assert!(!dev.complete_block_request(request.id, &data, true, &mut ram, BASE, &mut jit,));
    assert_eq!(u16_at(&ram, USED + 2), 1, "completion publishes once");
}

#[test]
fn external_block_failed_reads_do_not_modify_guest_data() {
    let cases = [
        ("short", vec![0x5a; SECTOR - 1], true),
        ("long", vec![0x5a; SECTOR + 1], true),
        ("host failure", vec![0x5a; SECTOR], false),
    ];

    for (case, data, ok) in cases {
        let (mut dev, mut ram) = external_block_device();
        ram[REQ + 0x100..REQ + 0x100 + SECTOR].fill(0xa5);
        submit_block(&mut dev, &mut ram, VIRTIO_BLK_T_IN, 1, true);
        let request = dev.pending_block_request().expect("pending read");
        let mut jit = JitPageState::new(ram.len());

        assert!(dev.complete_block_request(request.id, &data, ok, &mut ram, BASE, &mut jit,));
        assert_eq!(
            &ram[REQ + 0x100..REQ + 0x100 + SECTOR],
            &[0xa5; SECTOR],
            "{} modified the guest read buffer",
                case
        );
        assert_eq!(ram[REQ + 0x300], 1, "{} must report IOERR", case);
        assert_eq!(u16_at(&ram, USED + 2), 1);
        assert_eq!(used_entry(&ram, &RING0, 1), (0, 1));
        assert!(!dev.has_pending_block_request());
    }
}

#[test]
fn external_block_read_scatters_across_descriptors() {
    let (mut dev, mut ram) = external_block_device();
    let first_len = 173usize;
    submit_split_block(
        &mut dev,
        &mut ram,
        VIRTIO_BLK_T_IN,
        1,
        true,
        first_len as u32,
    );
    let request = dev.pending_block_request().expect("pending read");
    let data: Vec<u8> = (0..SECTOR).map(|index| (index % 251) as u8).collect();
    let mut jit = JitPageState::new(ram.len());

    assert!(dev.complete_block_request(request.id, &data, true, &mut ram, BASE, &mut jit,));
    assert_eq!(
        &ram[REQ + 0x100..REQ + 0x100 + first_len],
        &data[..first_len]
    );
    assert_eq!(
        &ram[REQ + 0x200..REQ + 0x200 + SECTOR - first_len],
        &data[first_len..]
    );
    assert_eq!(ram[REQ + 0x400], 0);
    assert_eq!(used_entry(&ram, &RING0, 1), (0, SECTOR as u32 + 1));
}

#[test]
fn external_block_wrong_id_preserves_the_pending_request() {
    let (mut dev, mut ram) = external_block_device();
    ram[REQ + 0x100..REQ + 0x100 + SECTOR].fill(0xa5);
    submit_block(&mut dev, &mut ram, VIRTIO_BLK_T_IN, 1, true);
    let request = dev.pending_block_request().expect("pending read");
    let mut jit = JitPageState::new(ram.len());

    assert!(!dev.complete_block_request(
        request.id.wrapping_add(1),
        &[0x5a; SECTOR],
        true,
        &mut ram,
        BASE,
        &mut jit,
    ));
    assert_eq!(dev.pending_block_request(), Some(request.clone()));
    assert_eq!(&ram[REQ + 0x100..REQ + 0x100 + SECTOR], &[0xa5; SECTOR]);
    assert_eq!(u16_at(&ram, USED + 2), 0);

    assert!(dev.complete_block_request(
        request.id,
        &[0x5a; SECTOR],
        true,
        &mut ram,
        BASE,
        &mut jit,
    ));
    assert_eq!(u16_at(&ram, USED + 2), 1);
}

#[test]
fn external_block_repeated_notify_preserves_the_pending_request() {
    let (mut dev, mut ram) = external_block_device();
    submit_block(&mut dev, &mut ram, VIRTIO_BLK_T_IN, 1, true);
    let request = dev.pending_block_request().expect("pending read");

    process(&mut dev, 0, &mut ram);

    assert_eq!(dev.pending_block_request(), Some(request.clone()));
    assert_eq!(u16_at(&ram, USED + 2), 0);
    let mut jit = JitPageState::new(ram.len());
    assert!(dev.complete_block_request(
        request.id,
        &[0x5a; SECTOR],
        true,
        &mut ram,
        BASE,
        &mut jit,
    ));
    assert_eq!(u16_at(&ram, USED + 2), 1);
    assert_eq!(used_entry(&ram, &RING0, 1), (0, SECTOR as u32 + 1));
}

#[test]
fn external_block_reset_cancels_the_pending_request() {
    let (mut dev, mut ram) = external_block_device();
    submit_block(&mut dev, &mut ram, VIRTIO_BLK_T_IN, 1, true);
    let request = dev.pending_block_request().expect("pending read");
    dev.write(0x070, 0);

    assert!(!dev.has_pending_block_request());
    assert!(!dev.irq_pending());
    let mut jit = JitPageState::new(ram.len());
    assert!(!dev.complete_block_request(
        request.id,
        &[0x5a; SECTOR],
        true,
        &mut ram,
        BASE,
        &mut jit,
    ));
    assert_eq!(u16_at(&ram, USED + 2), 0);
}

#[test]
fn external_block_write_and_flush_are_host_requests() {
    let (mut dev, mut ram) = external_block_device();
    ram[REQ + 0x100..REQ + 0x100 + SECTOR].fill(0xa5);
    submit_block(&mut dev, &mut ram, VIRTIO_BLK_T_OUT, 2, false);

    let write = dev.pending_block_request().expect("pending write");
    assert_eq!(write.kind, BlockRequestKind::Write);
    assert_eq!(write.offset, (2 * SECTOR) as u64);
    assert_eq!(write.data(), &[0xa5; SECTOR]);
    let mut jit = JitPageState::new(ram.len());
    assert!(dev.complete_block_request(write.id, &[], true, &mut ram, BASE, &mut jit,));
    assert_eq!(ram[REQ + 0x300], 0);

    ram[REQ..REQ + 4].copy_from_slice(&VIRTIO_BLK_T_FLUSH.to_le_bytes());
    ram[REQ + 8..REQ + 16].fill(0);
    put_desc_in(&mut ram, &RING0, 0, REQ, 16, 1, 2);
    put_desc_in(&mut ram, &RING0, 2, REQ + 0x300, 1, 2, 0);
    publish(&mut ram, &RING0, 0, 2);
    process(&mut dev, 0, &mut ram);

    let flush = dev.pending_block_request().expect("pending flush");
    assert_eq!(flush.kind, BlockRequestKind::Flush);
    assert!(flush.is_empty());
    assert!(dev.complete_block_request(flush.id, &[], true, &mut ram, BASE, &mut jit,));
    assert_eq!(u16_at(&ram, USED + 2), 2);
    assert_eq!(ram[REQ + 0x300], 0);
}

#[test]
fn external_block_write_gathers_multiple_descriptors() {
    let (mut dev, mut ram) = external_block_device();
    let first_len = 173usize;
    ram[REQ + 0x100..REQ + 0x100 + first_len].fill(0x11);
    ram[REQ + 0x200..REQ + 0x200 + SECTOR - first_len].fill(0x22);
    submit_split_block(
        &mut dev,
        &mut ram,
        VIRTIO_BLK_T_OUT,
        2,
        false,
        first_len as u32,
    );

    let request = dev.pending_block_request().expect("pending write");
    assert_eq!(request.kind, BlockRequestKind::Write);
    assert_eq!(&request.data()[..first_len], &[0x11; 173]);
    assert_eq!(&request.data()[first_len..], &[0x22; SECTOR - 173]);
    let mut jit = JitPageState::new(ram.len());
    assert!(dev.complete_block_request(request.id, &[], true, &mut ram, BASE, &mut jit,));
    assert_eq!(ram[REQ + 0x400], 0);
    assert_eq!(used_entry(&ram, &RING0, 1), (0, 1));
}

#[test]
fn external_block_rejects_invalid_flush_synchronously() {
    let (mut dev, mut ram) = external_block_device();
    submit_block(&mut dev, &mut ram, VIRTIO_BLK_T_FLUSH, 0, false);

    assert!(!dev.has_pending_block_request());
    assert_eq!(ram[REQ + 0x300], 1);
    assert_eq!(u16_at(&ram, USED + 2), 1);
    assert_eq!(used_entry(&ram, &RING0, 1), (0, 1));
}

#[test]
fn external_block_flush_failure_reports_ioerr() {
    let (mut dev, mut ram) = external_block_device();
    setup_ring(&mut dev, 0, &RING0);
    ram[REQ..REQ + 4].copy_from_slice(&VIRTIO_BLK_T_FLUSH.to_le_bytes());
    put_desc_in(&mut ram, &RING0, 0, REQ, 16, 1, 1);
    put_desc_in(&mut ram, &RING0, 1, REQ + 0x300, 1, 2, 0);
    publish(&mut ram, &RING0, 0, 1);
    process(&mut dev, 0, &mut ram);

    let request = dev.pending_block_request().expect("pending flush");
    assert_eq!(request.kind, BlockRequestKind::Flush);
    let mut jit = JitPageState::new(ram.len());
    assert!(dev.complete_block_request(request.id, &[], false, &mut ram, BASE, &mut jit,));
    assert_eq!(ram[REQ + 0x300], 1);
    assert_eq!(u16_at(&ram, USED + 2), 1);
    assert_eq!(used_entry(&ram, &RING0, 1), (0, 1));
}

// ---- virtio-net ----

const FRAME: usize = 0x9000; // guest TX frame buffer
const RXBUF: usize = 0xa000; // guest RX buffer

const TEST_MAC: [u8; 6] = [0x52, 0x54, 0x00, 0xab, 0xcd, 0xef];

fn net_device() -> (VirtioDev, Vec<u8>) {
    let dev = VirtioDev::new(Backend::Net {
        mac: TEST_MAC,
        inbox: Vec::new(),
        outbox: Vec::new(),
    });
    (dev, vec![0u8; 64 * 1024])
}

#[test]
fn advertises_a_net_device_and_its_mac() {
    let (mut dev, _) = net_device();
    assert_eq!(dev.read(0x008), 1); // virtio device id 1 = net
    dev.write(0x014, 0);
    assert_eq!(dev.read(0x010), 1 << 5, "VIRTIO_NET_F_MAC only");
    dev.write(0x014, 1);
    assert_eq!(dev.read(0x010), 1, "VIRTIO_F_VERSION_1");
    // The MAC is read byte-wise out of config space; without F_MAC (and a
    // readable MAC) the guest would invent a random address instead.
    let mac: Vec<u8> = (0..6).map(|i| dev.read_sized(0x100 + i, 1) as u8).collect();
    assert_eq!(&mac, &TEST_MAC);
    // status is only meaningful with VIRTIO_NET_F_STATUS, which we do not
    // offer — the guest treats the link as up unconditionally.
    assert_eq!(dev.read_sized(0x106, 2), 0);
    assert_eq!(dev.read(0x034), 256, "modern TX needs a non-tiny ring");
}

#[test]
fn transmits_a_guest_frame_stripped_of_its_header() {
    let (mut dev, mut ram) = net_device();
    setup_ring(&mut dev, 1, &RING1);

    // The guest writes virtio_net_hdr_v1 then the Ethernet frame.
    let payload: Vec<u8> = (0..60u8).collect();
    ram[FRAME..FRAME + NET_HDR_LEN].fill(0);
    ram[FRAME + NET_HDR_LEN..FRAME + NET_HDR_LEN + payload.len()].copy_from_slice(&payload);
    put_desc_in(
        &mut ram,
        &RING1,
        0,
        FRAME,
        (NET_HDR_LEN + payload.len()) as u32,
        0,
        0,
    );
    publish(&mut ram, &RING1, 0, 1);

    assert_eq!(dev.write(0x050, 1), Some(1), "notify selects the TX queue");
    process(&mut dev, 1, &mut ram);

    assert_eq!(u16_at(&ram, RING1.used + 2), 1, "TX chain consumed");
    let out = dev.net_take_output();
    assert_eq!(out.len(), 1);
    assert_eq!(out[0], payload, "header must be stripped, frame intact");
    assert!(dev.net_take_output().is_empty(), "drained once");
}

#[test]
fn transmits_a_frame_split_across_descriptors() {
    let (mut dev, mut ram) = net_device();
    setup_ring(&mut dev, 1, &RING1);
    // Linux hands the header and the payload as separate sg entries.
    let payload: Vec<u8> = (0..100u8).map(|i| i ^ 0x5a).collect();
    ram[FRAME..FRAME + NET_HDR_LEN].fill(0);
    ram[RXBUF..RXBUF + payload.len()].copy_from_slice(&payload);
    put_desc_in(&mut ram, &RING1, 0, FRAME, NET_HDR_LEN as u32, 1, 1);
    put_desc_in(&mut ram, &RING1, 1, RXBUF, payload.len() as u32, 0, 0);
    publish(&mut ram, &RING1, 0, 1);
    process(&mut dev, 1, &mut ram);
    assert_eq!(dev.net_take_output()[0], payload);
}

#[test]
fn receives_a_frame_into_a_guest_buffer() {
    let (mut dev, mut ram) = net_device();
    setup_ring(&mut dev, 0, &RING0);

    let frame: Vec<u8> = (0..74u8).map(|i| i.wrapping_mul(3)).collect();
    dev.net_input(&frame);
    assert!(dev.net_rx_pending());

    put_desc_in(&mut ram, &RING0, 0, RXBUF, 2048, 2 /* WRITE */, 0);
    publish(&mut ram, &RING0, 0, 1);
    process(&mut dev, 0, &mut ram);

    let (head, len) = used_entry(&ram, &RING0, 1);
    assert_eq!(head, 0);
    assert_eq!(len as usize, NET_HDR_LEN + frame.len());
    // num_buffers = 1 at offset 10. Linux sizes hdr_len from VERSION_1, so
    // a 10-byte header here would shift every frame by two bytes.
    assert_eq!(&ram[RXBUF..RXBUF + 10], &[0u8; 10]);
    assert_eq!(u16_at(&ram, RXBUF + 10), 1, "num_buffers");
    assert_eq!(
        &ram[RXBUF + NET_HDR_LEN..RXBUF + NET_HDR_LEN + frame.len()],
        &frame[..]
    );
    assert!(!dev.net_rx_pending(), "frame consumed");
    assert!(dev.irq_pending(), "RX must raise the interrupt");
}

#[test]
fn dma_write_invalidates_a_compiled_guest_page() {
    let (mut dev, mut ram) = net_device();
    setup_ring(&mut dev, 0, &RING0);
    dev.net_input(&[1, 2, 3, 4]);
    put_desc_in(&mut ram, &RING0, 0, RXBUF, 2048, 2, 0);
    publish(&mut ram, &RING0, 0, 1);

    let mut jit = JitPageState::new(ram.len());
    let page = RXBUF as u64 >> 12;
    jit.mark_address(BASE + RXBUF as u64);
    dev.process(0, &mut ram, BASE, &mut jit);

    assert!(jit.is_dirty(page));
    assert_eq!(jit.page_generation(page), Some(1));
    assert_eq!(jit.take_dirty(), vec![page]);
}

#[test]
fn dma_rejects_addresses_that_alias_low_ram_on_wasm32() {
    let mut ram = vec![0u8; 64];
    let mut jit = JitPageState::new(ram.len());
    jit.mark_address(BASE + 4);

    assert!(!guest_write(
        &mut ram,
        BASE,
        BASE + (1u64 << 32) + 4,
        &[1, 2, 3, 4],
        &mut jit,
    ));
    assert_eq!(&ram[4..8], &[0, 0, 0, 0]);
    assert!(!jit.has_dirty());
}

#[test]
fn an_rx_buffer_with_no_frame_is_left_on_the_ring() {
    let (mut dev, mut ram) = net_device();
    setup_ring(&mut dev, 0, &RING0);
    put_desc_in(&mut ram, &RING0, 0, RXBUF, 2048, 2, 0);
    publish(&mut ram, &RING0, 0, 1);
    process(&mut dev, 0, &mut ram);
    // Nothing to deliver: the buffer stays available for the next frame
    // rather than being consumed empty.
    assert_eq!(u16_at(&ram, RING0.used + 2), 0);
    assert!(!dev.irq_pending());
    // It is still there when a frame turns up.
    dev.net_input(b"late frame");
    process(&mut dev, 0, &mut ram);
    assert_eq!(u16_at(&ram, RING0.used + 2), 1);
}

#[test]
fn an_undersized_rx_buffer_drops_the_frame_instead_of_wedging() {
    let (mut dev, mut ram) = net_device();
    setup_ring(&mut dev, 0, &RING0);
    dev.net_input(&vec![7u8; 1500]);
    put_desc_in(&mut ram, &RING0, 0, RXBUF, 64, 2, 0);
    publish(&mut ram, &RING0, 0, 1);
    process(&mut dev, 0, &mut ram);
    // Keeping an unsendable frame at the head would stall the queue forever.
    assert!(!dev.net_rx_pending(), "oversized frame dropped");
    assert_eq!(u16_at(&ram, RING0.used + 2), 0, "buffer not consumed");
}

#[test]
fn mailboxes_are_bounded() {
    let (mut dev, mut ram) = net_device();
    setup_ring(&mut dev, 1, &RING1);
    // A guest that never posts RX buffers must not grow host memory.
    for _ in 0..NET_QUEUE_LIMIT + 50 {
        dev.net_input(b"flood");
    }
    let Backend::Net { inbox, .. } = &dev.backend else {
        unreachable!()
    };
    assert_eq!(inbox.len(), NET_QUEUE_LIMIT);
    // Nor must a host that never collects.
    ram[FRAME..FRAME + NET_HDR_LEN + 4].fill(1);
    for n in 1..=(NET_QUEUE_LIMIT as u16 + 50) {
        put_desc_in(&mut ram, &RING1, 0, FRAME, (NET_HDR_LEN + 4) as u32, 0, 0);
        publish(&mut ram, &RING1, 0, n);
        process(&mut dev, 1, &mut ram);
    }
    assert_eq!(dev.net_take_output().len(), NET_QUEUE_LIMIT);
}

#[test]
fn an_over_long_frame_is_refused() {
    let (mut dev, _) = net_device();
    dev.net_input(&vec![0u8; NET_MAX_FRAME + 1]);
    assert!(!dev.net_rx_pending(), "frame larger than NET_MAX_FRAME");
    dev.net_input(&vec![0u8; NET_MAX_FRAME]);
    assert!(dev.net_rx_pending(), "a frame at the limit is accepted");
}
