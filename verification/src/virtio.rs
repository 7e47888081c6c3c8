//! virtio-mmio (version 2) transport with split virtqueues, block, and network
//! backends.

use vstd::prelude::*;
use crate::bytes::{copy_range, le_bytes, le_value, push_all, push_le, spliced, write_at};
use crate::dma::{
    guest_bytes, guest_slice, guest_value, guest_write, in_ram, memory, read_guest, write_guest,
    Memory,
};
use crate::ram::{checked_ram_range, JitPageState, RAM_BASE};
use crate::virtio_laws::{law_answers_are_observed, law_processing_is_observed};

verus! {

/// Device backends the transport can host.
pub enum Backend {
    /// virtio-blk (device id 2), backed by an in-memory disk image.
    Block { disk: Vec<u8> },
    /// virtio-blk backed by a native file service. The device keeps only the
    /// descriptor that is waiting for the host operation; the file remains
    /// outside Wasm memory.
    ExternalBlock { size: u64, pending: Option<PendingBlockRequest> },
    /// virtio-net (device id 1). RX = queue 0, TX = queue 1.
    ///
    /// The device works purely at layer 2: it moves whole Ethernet frames
    /// between the guest's queues and these two mailboxes, and knows nothing
    /// about ARP, IP or TCP. Where the frames actually go is the host layer's
    /// problem.
    Net {
        mac: [u8; 6],
        /// Frames from the host, awaiting an RX buffer from the guest.
        inbox: Vec<Vec<u8>>,
        /// Frames the guest has sent, awaiting collection by the host.
        outbox: Vec<Vec<u8>>,
    },
}

/// A block operation that waits for the host.
#[derive(Debug, Clone, PartialEq, Eq)]
pub struct PendingBlockRequest {
    pub id: u64,
    pub kind: BlockRequestKind,
    pub offset: u64,
    pub data: Vec<u8>,
    length: u64,
    read_buffers: Vec<(u64, u32)>,
    status_addr: u64,
    queue_index: usize,
    head: u16,
    used_index_addr: u64,
    used_entry: u64,
    used_idx: u16,
}

#[derive(Debug, Clone, Copy, PartialEq, Eq, Structural)]
pub enum BlockRequestKind {
    Read,
    Write,
    Flush,
}

/// What a [`PendingBlockRequest`] asks for, and where its completion goes.
#[verifier::ext_equal]
pub struct PendingView {
    pub id: u64,
    pub kind: BlockRequestKind,
    pub offset: u64,
    pub data: Seq<u8>,
    pub length: u64,
    pub read_buffers: Seq<(u64, u32)>,
    pub status_addr: u64,
    pub queue_index: int,
    pub head: u16,
    pub used_index_addr: u64,
    pub used_entry: u64,
    pub used_idx: u16,
}

impl View for PendingBlockRequest {
    type V = PendingView;

    closed spec fn view(&self) -> PendingView {
        PendingView {
            id: self.id,
            kind: self.kind,
            offset: self.offset,
            data: self.data@,
            length: self.length,
            read_buffers: self.read_buffers@,
            status_addr: self.status_addr,
            queue_index: self.queue_index as int,
            head: self.head,
            used_index_addr: self.used_index_addr,
            used_entry: self.used_entry,
            used_idx: self.used_idx,
        }
    }
}

/// Bytes that the first `n` of `buffers` hold.
pub open spec fn buffered(buffers: Seq<(u64, u32)>, n: int) -> int
    decreases n,
{
    if n <= 0 {
        0
    } else {
        buffered(buffers, n - 1) + buffers[n - 1].1
    }
}

impl PendingView {
    /// A request that a device waits for: its queue exists, a read fills
    /// exactly its buffers, and its size is that of one disk operation.
    pub open spec fn wf(self) -> bool {
        &&& 0 <= self.queue_index < 2
        &&& self.length <= 65536
        &&& self.kind is Read ==> buffered(self.read_buffers, self.read_buffers.len() as int) == self.length
    }

    /// Whether the request is one that a disk of `size` bytes can carry out: it
    /// moves whole buffers inside the disk from the start of a sector, only a
    /// flush moves nothing, and only a write brings data.
    pub open spec fn suits(self, size: u64) -> bool {
        &&& self.length == 0 <==> self.kind is Flush
        &&& self.data.len() == if self.kind is Write {
            self.length as nat
        } else {
            0
        }
        &&& !(self.kind is Flush) ==> self.offset % 512 == 0 && self.offset + self.length <= size
    }
}

impl PendingBlockRequest {
    /// The bytes that the request moves.
    pub fn len(&self) -> (len: u64)
        ensures
            len == self@.length,
    {
        self.length
    }

    /// Whether the request moves no bytes.
    pub fn is_empty(&self) -> (empty: bool)
        ensures
            empty == (self@.length == 0),
    {
        self.length == 0
    }

    /// The bytes that the guest wants written.
    pub fn data(&self) -> (data: &[u8])
        ensures
            data@ == self@.data,
    {
        self.data.as_slice()
    }

    fn copy(&self) -> (copy: Self)
        ensures
            copy@ == self@,
    {
        let mut read_buffers: Vec<(u64, u32)> = Vec::new();
        let mut i: usize = 0;
        while i < self.read_buffers.len()
            invariant
                i <= self.read_buffers@.len(),
                read_buffers@ == self.read_buffers@.subrange(0, i as int),
            decreases self.read_buffers@.len() - i,
        {
            read_buffers.push(self.read_buffers[i]);
            i = i + 1;
        }
        PendingBlockRequest {
            id: self.id,
            kind: self.kind,
            offset: self.offset,
            data: vstd::slice::slice_to_vec(self.data.as_slice()),
            length: self.length,
            read_buffers,
            status_addr: self.status_addr,
            queue_index: self.queue_index,
            head: self.head,
            used_index_addr: self.used_index_addr,
            used_entry: self.used_entry,
            used_idx: self.used_idx,
        }
    }
}

pub const MAX_QUEUES: usize = 2;

/// Bytes of `struct virtio_net_hdr_v1` in front of every frame in both
/// directions. 12 rather than 10 because we negotiate `VIRTIO_F_VERSION_1`,
/// which makes the header carry `num_buffers` — Linux sizes `vi->hdr_len` on
/// exactly that condition, so a 10-byte header would desynchronise every frame.
pub const NET_HDR_LEN: usize = 12;

/// Largest frame we will move: Ethernet MTU + header + VLAN slack.
pub const NET_MAX_FRAME: usize = 1600;

/// MAC handed to the guest unless the caller picks one. Locally administered
/// (bit 1 of the first octet), unicast. Two guests sharing one relay must NOT
/// share this — give the second a different address.
pub const DEFAULT_MAC: [u8; 6] = [0x52, 0x54, 0x00, 0x12, 0x34, 0x56];

/// How many frames may queue up in either direction before we drop. A guest
/// that stops posting RX buffers, or a host that stops collecting, must not
/// grow our memory without bound.
pub const NET_QUEUE_LIMIT: usize = 256;

/// virtio-blk read request.
pub const VIRTIO_BLK_T_IN: u32 = 0;

/// virtio-blk write request.
pub const VIRTIO_BLK_T_OUT: u32 = 1;

/// virtio-blk flush request.
pub const VIRTIO_BLK_T_FLUSH: u32 = 4;

pub const VIRTIO_BLK_F_SIZE_MAX: u32 = 1;

pub const VIRTIO_BLK_F_SEG_MAX: u32 = 2;

/// Most bytes that one host disk operation moves.
pub const MAX_DISK_OPERATION: u64 = 65536;

pub const MAX_DISK_SEGMENTS: u32 = 1;

pub const SECTOR: usize = 512;

/// One entry of a descriptor table.
#[derive(Clone, Copy, PartialEq, Eq, Structural)]
pub struct Descriptor {
    pub addr: u64,
    pub len: u32,
    pub writable: bool,
}

/// The frames of a mailbox.
pub open spec fn frames(mailbox: Seq<Vec<u8>>) -> Seq<Seq<u8>> {
    mailbox.map_values(|frame: Vec<u8>| frame@)
}

/// What a [`Backend`] holds.
#[verifier::ext_equal]
pub enum BackendView {
    Block { disk: Seq<u8> },
    ExternalBlock { size: u64, pending: Option<PendingView> },
    Net { mac: Seq<u8>, inbox: Seq<Seq<u8>>, outbox: Seq<Seq<u8>> },
}

/// The view of a pending request, if there is one.
pub open spec fn pending_view(pending: Option<PendingBlockRequest>) -> Option<PendingView> {
    match pending {
        Some(request) => Some(request@),
        None => None,
    }
}

impl View for Backend {
    type V = BackendView;

    open spec fn view(&self) -> BackendView {
        match *self {
            Backend::Block { disk } => BackendView::Block { disk: disk@ },
            Backend::ExternalBlock { size, pending } => BackendView::ExternalBlock {
                size,
                pending: pending_view(pending),
            },
            Backend::Net { mac, inbox, outbox } => BackendView::Net {
                mac: mac@,
                inbox: frames(inbox@),
                outbox: frames(outbox@),
            },
        }
    }
}

impl BackendView {
    /// A request that is pending can be completed and suits the disk, and a MAC
    /// has six bytes.
    pub open spec fn wf(self) -> bool {
        match self {
            BackendView::Block { disk } => true,
            BackendView::ExternalBlock { size, pending } => match pending {
                Some(request) => request.wf() && request.suits(size),
                None => true,
            },
            BackendView::Net { mac, inbox, outbox } => mac.len() == 6,
        }
    }

    /// Neither mailbox is over its limit and every waiting frame may be moved.
    pub open spec fn bounded(self) -> bool {
        self matches BackendView::Net { mac, inbox, outbox } ==> {
            &&& inbox.len() <= NET_QUEUE_LIMIT
            &&& outbox.len() <= NET_QUEUE_LIMIT
            &&& forall|i: int| 0 <= i < inbox.len() ==> #[trigger] inbox[i].len() <= NET_MAX_FRAME
            &&& forall|i: int| 0 <= i < outbox.len() ==> #[trigger] outbox[i].len() <= NET_MAX_FRAME
        }
    }

    /// Whether the backend waits for the host.
    pub open spec fn awaits_host(self) -> bool {
        self matches BackendView::ExternalBlock { size, pending } && pending is Some
    }
}

// ---- block, in memory ----------------------------------------------------

/// Progress of one in-memory block request.
#[verifier::ext_equal]
pub struct BlockRun {
    pub disk: Seq<u8>,
    pub mem: Memory,
    pub pos: int,
    pub moved: int,
    pub ok: bool,
}

/// One data buffer of a block request. What a read moves is what it writes.
pub open spec fn block_step(r: BlockRun, base: u64, kind: nat, d: Descriptor) -> BlockRun {
    let fits = r.pos + d.len <= r.disk.len();
    let mapped = in_ram(r.mem.ram.len(), base, d.addr as int, d.len as int);
    let pos = r.pos + d.len;
    if kind == VIRTIO_BLK_T_IN && d.writable {
        BlockRun {
            mem: if fits {
                r.mem.written(base, d.addr as int, r.disk.subrange(r.pos, r.pos + d.len))
            } else {
                r.mem
            },
            pos,
            moved: if fits && mapped {
                r.moved + d.len
            } else {
                r.moved
            },
            ok: r.ok && fits && mapped,
            ..r
        }
    } else if kind == VIRTIO_BLK_T_OUT && !d.writable && fits && mapped {
        BlockRun {
            disk: spliced(
                r.disk,
                r.pos,
                guest_bytes(r.mem.ram, base, d.addr as int, d.len as int),
            ),
            pos,
            ..r
        }
    } else {
        BlockRun { pos, ok: false, ..r }
    }
}

/// The data buffers of a block request, in order.
pub open spec fn block_run(r: BlockRun, base: u64, kind: nat, body: Seq<Descriptor>) -> BlockRun
    decreases body.len(),
{
    if body.len() == 0 {
        r
    } else {
        block_step(block_run(r, base, kind, body.drop_last()), base, kind, body.last())
    }
}

/// What servicing a chain leaves behind: the backend, the memory, the bytes
/// reported to the guest (`None` leaves the chain on the ring), and the number
/// of the next host request.
#[verifier::ext_equal]
pub struct Serviced {
    pub backend: BackendView,
    pub mem: Memory,
    pub written: Option<u32>,
    pub next_id: u64,
}

/// The data buffers of a chain: all but its header and its status byte.
pub open spec fn body_of(chain: Seq<Descriptor>) -> Seq<Descriptor> {
    chain.subrange(1, chain.len() - 1)
}

/// Service of one chain by the in-memory disk.
///
/// Layout: header (16 bytes, read-only), data buffers, status (1 byte,
/// writable). The bytes reported are those that were written.
pub open spec fn block_serviced(
    disk: Seq<u8>,
    mem: Memory,
    next_id: u64,
    base: u64,
    chain: Seq<Descriptor>,
) -> Serviced {
    let idle = Serviced { backend: BackendView::Block { disk }, mem, written: None, next_id };
    if chain.len() == 0 {
        idle
    } else if !in_ram(mem.ram.len(), base, chain[0].addr as int, 16) {
        Serviced { written: Some(0), ..idle }
    } else if chain.len() == 1 {
        idle
    } else {
        let header = guest_bytes(mem.ram, base, chain[0].addr as int, 16);
        let start = BlockRun {
            disk,
            mem,
            pos: le_value(header.subrange(8, 16)) as int * 512,
            moved: 0,
            ok: true,
        };
        let end = block_run(start, base, le_value(header.subrange(0, 4)), body_of(chain));
        Serviced {
            backend: BackendView::Block { disk: end.disk },
            mem: end.mem.written(
                base,
                chain.last().addr as int,
                seq![
                    if end.ok {
                        0u8
                    } else {
                        1u8
                    },
                ],
            ),
            written: Some(
                ((end.moved + if in_ram(mem.ram.len(), base, chain.last().addr as int, 1) {
                    1int
                } else {
                    0int
                }) % 0x1_0000_0000) as u32,
            ),
            next_id,
        }
    }
}

// ---- block, served by the host -------------------------------------------

/// Bytes that the first `n` buffers of `body` hold.
pub open spec fn span_of(body: Seq<Descriptor>, n: int) -> int
    decreases n,
{
    if n <= 0 {
        0
    } else {
        span_of(body, n - 1) + body[n - 1].len
    }
}

/// The bytes in the first `n` buffers of `body`, in order.
pub open spec fn gathered(ram: Seq<u8>, base: u64, body: Seq<Descriptor>, n: int) -> Seq<u8>
    decreases n,
{
    if n <= 0 {
        Seq::empty()
    } else {
        gathered(ram, base, body, n - 1) + guest_bytes(
            ram,
            base,
            body[n - 1].addr as int,
            body[n - 1].len as int,
        )
    }
}

/// The operation that a request header asks for.
pub open spec fn kind_of(request_type: nat) -> Option<BlockRequestKind> {
    if request_type == VIRTIO_BLK_T_IN {
        Some(BlockRequestKind::Read)
    } else if request_type == VIRTIO_BLK_T_OUT {
        Some(BlockRequestKind::Write)
    } else if request_type == VIRTIO_BLK_T_FLUSH {
        Some(BlockRequestKind::Flush)
    } else {
        None
    }
}

/// Whether a data buffer suits the operation: reads fill writable RAM, writes
/// take read-only RAM, and a flush moves nothing.
pub open spec fn buffer_suits(
    len: nat,
    base: u64,
    kind: BlockRequestKind,
    d: Descriptor,
) -> bool {
    match kind {
        BlockRequestKind::Read => d.writable && in_ram(len, base, d.addr as int, d.len as int),
        BlockRequestKind::Write => !d.writable && in_ram(len, base, d.addr as int, d.len as int),
        BlockRequestKind::Flush => d.len == 0,
    }
}

/// The host request that a chain asks for, if the chain is one that the host
/// can be asked to serve.
pub open spec fn host_request(
    size: u64,
    ram: Seq<u8>,
    base: u64,
    chain: Seq<Descriptor>,
    id: u64,
) -> Option<PendingView> {
    let body = body_of(chain);
    let length = span_of(body, body.len() as int);
    let header = guest_bytes(ram, base, chain[0].addr as int, 16);
    let offset = le_value(header.subrange(8, 16)) * 512;
    if chain.len() < 2 || chain[0].len < 16 || chain[0].writable || !in_ram(
        ram.len(),
        base,
        chain[0].addr as int,
        16,
    ) {
        None
    } else {
        match kind_of(le_value(header.subrange(0, 4))) {
            None => None,
            Some(kind) => if offset > u64::MAX || length > MAX_DISK_OPERATION || (exists|i: int|
                0 <= i < body.len() && !buffer_suits(ram.len(), base, kind, #[trigger] body[i])) {
                None
            } else if kind is Flush && chain.len() != 2 {
                None
            } else if !(kind is Flush) && (length == 0 || offset + length > size) {
                None
            } else {
                Some(
                    PendingView {
                        id,
                        kind,
                        offset: offset as u64,
                        data: if kind is Write {
                            gathered(ram, base, body, body.len() as int)
                        } else {
                            Seq::empty()
                        },
                        length: length as u64,
                        read_buffers: if kind is Read {
                            body.map_values(|d: Descriptor| (d.addr, d.len))
                        } else {
                            Seq::empty()
                        },
                        status_addr: chain.last().addr,
                        queue_index: 0,
                        head: 0,
                        used_index_addr: 0,
                        used_entry: 0,
                        used_idx: 0,
                    },
                )
            },
        }
    }
}

/// Service of one chain by a disk that the host keeps. A chain that the host
/// cannot be asked to serve is answered with an I/O error at once.
pub open spec fn external_serviced(
    size: u64,
    pending: Option<PendingView>,
    mem: Memory,
    next_id: u64,
    base: u64,
    qi: int,
    chain: Seq<Descriptor>,
) -> Serviced {
    let idle = Serviced {
        backend: BackendView::ExternalBlock { size, pending },
        mem,
        written: None,
        next_id,
    };
    if qi != 0 {
        Serviced { written: Some(0), ..idle }
    } else if pending is Some {
        idle
    } else if chain.len() == 0 || chain.last().len < 1 || !chain.last().writable || !in_ram(
        mem.ram.len(),
        base,
        chain.last().addr as int,
        1,
    ) {
        Serviced { written: Some(0), ..idle }
    } else {
        match host_request(size, mem.ram, base, chain, next_id) {
            Some(request) => Serviced {
                backend: BackendView::ExternalBlock { size, pending: Some(request) },
                next_id: vstd::wrapping::u64_specs::wrapping_add(next_id, 1),
                ..idle
            },
            None => Serviced {
                mem: mem.written(base, chain.last().addr as int, seq![1u8]),
                written: Some(1),
                ..idle
            },
        }
    }
}

// ---- network -------------------------------------------------------------

/// Bytes that the writable buffers among the first `n` of `chain` can take.
pub open spec fn room_in(chain: Seq<Descriptor>, n: int) -> int
    decreases n,
{
    if n <= 0 {
        0
    } else {
        room_in(chain, n - 1) + if chain[n - 1].writable {
            chain[n - 1].len as int
        } else {
            0
        }
    }
}

/// Progress of one frame into the buffers of a chain.
#[verifier::ext_equal]
pub struct Scatter {
    pub mem: Memory,
    pub written: int,
    pub stopped: bool,
}

/// The smaller of two lengths.
pub open spec fn lesser(a: int, b: int) -> int {
    if a <= b {
        a
    } else {
        b
    }
}

/// One buffer of a scattered frame.
pub open spec fn scatter_step(s: Scatter, base: u64, src: Seq<u8>, d: Descriptor) -> Scatter {
    let n = lesser(src.len() - s.written, d.len as int);
    if s.stopped || !d.writable || s.written >= src.len() {
        s
    } else if in_ram(s.mem.ram.len(), base, d.addr as int, n) {
        Scatter {
            mem: s.mem.written(base, d.addr as int, src.subrange(s.written, s.written + n)),
            written: s.written + n,
            stopped: false,
        }
    } else {
        Scatter { stopped: true, ..s }
    }
}

/// `src` scattered over the first `n` buffers of `chain`.
pub open spec fn scattered(
    mem: Memory,
    base: u64,
    src: Seq<u8>,
    chain: Seq<Descriptor>,
    n: int,
) -> Scatter
    decreases n,
{
    if n <= 0 {
        Scatter { mem, written: 0, stopped: false }
    } else {
        scatter_step(scattered(mem, base, src, chain, n - 1), base, src, chain[n - 1])
    }
}

/// The header in front of a received frame: all zero but for `num_buffers`,
/// which says that the frame occupies exactly one chain.
pub open spec fn rx_header() -> Seq<u8> {
    seq![0u8, 0, 0, 0, 0, 0, 0, 0, 0, 0, 1, 0]
}

/// The bytes in the read-only buffers among the first `n` of `chain`, unless
/// one of them is outside RAM.
pub open spec fn collected(ram: Seq<u8>, base: u64, chain: Seq<Descriptor>, n: int) -> Option<
    Seq<u8>,
>
    decreases n,
{
    if n <= 0 {
        Some(Seq::empty())
    } else {
        let d = chain[n - 1];
        match collected(ram, base, chain, n - 1) {
            None => None,
            Some(head) => if d.writable {
                Some(head)
            } else if in_ram(ram.len(), base, d.addr as int, d.len as int) {
                Some(head + guest_bytes(ram, base, d.addr as int, d.len as int))
            } else {
                None
            },
        }
    }
}

/// The frame that the guest sends with `chain`: its bytes without the header, if
/// they make a frame that may be moved.
pub open spec fn frame_in(ram: Seq<u8>, base: u64, chain: Seq<Descriptor>) -> Option<Seq<u8>> {
    match collected(ram, base, chain, chain.len() as int) {
        Some(bytes) if NET_HDR_LEN < bytes.len() <= NET_HDR_LEN + NET_MAX_FRAME => Some(
            bytes.subrange(NET_HDR_LEN as int, bytes.len() as int),
        ),
        _ => None,
    }
}

/// The frames waiting for the host after the guest sends `chain`: its frame joins
/// them, if there is room.
pub open spec fn sent(
    outbox: Seq<Seq<u8>>,
    ram: Seq<u8>,
    base: u64,
    chain: Seq<Descriptor>,
) -> Seq<Seq<u8>> {
    match frame_in(ram, base, chain) {
        Some(frame) if outbox.len() < NET_QUEUE_LIMIT => outbox.push(frame),
        _ => outbox,
    }
}

/// Service of one chain by the network device.
pub open spec fn net_serviced(
    mac: Seq<u8>,
    inbox: Seq<Seq<u8>>,
    outbox: Seq<Seq<u8>>,
    mem: Memory,
    next_id: u64,
    base: u64,
    qi: int,
    chain: Seq<Descriptor>,
) -> Serviced {
    let idle = Serviced {
        backend: BackendView::Net { mac, inbox, outbox },
        mem,
        written: None,
        next_id,
    };
    if qi == 0 {
        if inbox.len() == 0 {
            idle
        } else {
            let taken = BackendView::Net { mac, inbox: inbox.drop_first(), outbox };
            let src = rx_header() + inbox[0];
            if room_in(chain, chain.len() as int) < src.len() {
                Serviced { backend: taken, ..idle }
            } else {
                let end = scattered(mem, base, src, chain, chain.len() as int);
                Serviced {
                    backend: taken,
                    mem: end.mem,
                    written: Some((end.written % 0x1_0000_0000) as u32),
                    next_id,
                }
            }
        }
    } else {
        Serviced {
            backend: BackendView::Net { mac, inbox, outbox: sent(outbox, mem.ram, base, chain) },
            written: Some(0),
            ..idle
        }
    }
}

/// Service of one descriptor chain of queue `qi`.
pub open spec fn serviced(
    backend: BackendView,
    mem: Memory,
    next_id: u64,
    base: u64,
    qi: int,
    chain: Seq<Descriptor>,
) -> Serviced {
    match backend {
        BackendView::Block { disk } => block_serviced(disk, mem, next_id, base, chain),
        BackendView::ExternalBlock { size, pending } => external_serviced(
            size,
            pending,
            mem,
            next_id,
            base,
            qi,
            chain,
        ),
        BackendView::Net { mac, inbox, outbox } => net_serviced(
            mac,
            inbox,
            outbox,
            mem,
            next_id,
            base,
            qi,
            chain,
        ),
    }
}

/// Service one chain on an in-memory disk.
fn service_block(
    disk: &mut Vec<u8>,
    chain: &[Descriptor],
    ram: &mut [u8],
    ram_base: u64,
    jit: &mut JitPageState,
) -> (written: Option<u32>)
    requires
        old(jit).wf(),
    ensures
        final(jit).wf(),
        ({
            let s = block_serviced(
                old(disk)@,
                memory(old(ram)@, *old(jit)),
                0,
                ram_base,
                chain@,
            );
            &&& s.backend == BackendView::Block { disk: final(disk)@ }
            &&& s.mem == memory(final(ram)@, *final(jit))
            &&& s.written == written
        }),
{
    if chain.len() == 0 {
        return None;
    }
    let header: Vec<u8> = match guest_slice(ram, ram_base, chain[0].addr, 16) {
        Some(header) => copy_range(header, 0, 16),
        None => {
            return Some(0);
        },
    };
    if chain.len() == 1 {
        return None;
    }
    let request_type: u64 = crate::bytes::read_le(header.as_slice(), 0, 4);
    let sector: u64 = crate::bytes::read_le(header.as_slice(), 8, 8);
    let ghost body = body_of(chain@);
    let ghost start = BlockRun {
        disk: disk@,
        mem: memory(ram@, *jit),
        pos: sector as int * 512,
        moved: 0,
        ok: true,
    };
    proof {
        assert(header@ =~= guest_bytes(ram@, ram_base, chain@[0].addr as int, 16));
    }
    // A position that the host cannot count is past the end of any disk.
    let mut pos: Option<u64> = sector.checked_mul(512);
    let mut moved: u32 = 0;
    let mut ok = true;
    let mut i: usize = 1;
    proof {
        assert(body.subrange(0, 0) =~= Seq::<Descriptor>::empty());
    }
    while i < chain.len() - 1
        invariant
            1 <= i <= chain@.len() - 1,
            body == body_of(chain@),
            jit.wf(),
            ({
                let r = block_run(start, ram_base, request_type as nat, body.subrange(0, i - 1));
                &&& r.disk == disk@
                &&& r.mem == memory(ram@, *jit)
                &&& r.ok == ok
                &&& r.pos >= 0
                &&& match pos {
                    Some(p) => p == r.pos,
                    None => r.pos > u64::MAX,
                }
                &&& r.moved >= 0
                &&& moved as int == r.moved % 0x1_0000_0000
            }),
        decreases chain@.len() - i,
    {
        let d = chain[i];
        let ghost before = block_run(start, ram_base, request_type as nat, body.subrange(0, i - 1));
        let ghost after = block_run(start, ram_base, request_type as nat, body.subrange(0, i as int));
        proof {
            let taken = body.subrange(0, i as int);
            assert(taken.drop_last() =~= body.subrange(0, i - 1));
            assert(taken.last() == d);
            assert(after == block_step(before, ram_base, request_type as nat, d));
        }
        let disk_len: u64 = disk.len() as u64;
        let range: Option<(usize, usize)> = match pos {
            Some(p) => match p.checked_add(d.len as u64) {
                Some(end) => if end <= disk_len {
                    Some((p as usize, end as usize))
                } else {
                    None
                },
                None => None,
            },
            None => None,
        };
        if request_type == VIRTIO_BLK_T_IN as u64 && d.writable {
            match range {
                Some((from, to)) => {
                    let sectors: Vec<u8> = copy_range(disk.as_slice(), from, to);
                    if guest_write(ram, ram_base, d.addr, sectors.as_slice(), jit) {
                        moved = moved.wrapping_add(d.len);
                    } else {
                        ok = false;
                    }
                },
                None => {
                    ok = false;
                },
            }
        } else if request_type == VIRTIO_BLK_T_OUT as u64 && !d.writable {
            match (range, guest_slice(ram, ram_base, d.addr, d.len)) {
                (Some((from, to)), Some(source)) => {
                    write_at(disk.as_mut_slice(), from, source);
                },
                _ => {
                    ok = false;
                },
            }
        } else {
            ok = false;
        }
        pos = match pos {
            Some(p) => p.checked_add(d.len as u64),
            None => None,
        };
        i = i + 1;
    }
    assert(body.subrange(0, i - 1) =~= body);
    let status: [u8; 1] = [
        if ok {
            0
        } else {
            1
        },
    ];
    let last = chain[chain.len() - 1];
    assert(status@ =~= seq![if ok { 0u8 } else { 1u8 }]);
    proof {
        lemma_block_run_len(start, ram_base, request_type as nat, body);
    }
    if guest_write(ram, ram_base, last.addr, &status, jit) {
        Some(moved.wrapping_add(1))
    } else {
        Some(moved)
    }
}

proof fn lemma_span_grows(body: Seq<Descriptor>, m: int, n: int)
    requires
        0 <= m <= n <= body.len(),
    ensures
        0 <= span_of(body, m) <= span_of(body, n),
    decreases n,
{
    if n > 0 {
        if m < n {
            lemma_span_grows(body, m, n - 1);
        } else {
            lemma_span_grows(body, m - 1, n - 1);
        }
    }
}

proof fn lemma_buffered(buffers: Seq<(u64, u32)>, body: Seq<Descriptor>, n: int)
    requires
        0 <= n <= body.len(),
        buffers == body.map_values(|d: Descriptor| (d.addr, d.len)),
    ensures
        buffered(buffers, n) == span_of(body, n),
    decreases n,
{
    if n > 0 {
        lemma_buffered(buffers, body, n - 1);
    }
}

proof fn lemma_gathered_len(ram: Seq<u8>, base: u64, body: Seq<Descriptor>, n: int)
    requires
        0 <= n <= body.len(),
        forall|i: int|
            0 <= i < body.len() ==> buffer_suits(
                ram.len(),
                base,
                BlockRequestKind::Write,
                #[trigger] body[i],
            ),
    ensures
        gathered(ram, base, body, n).len() == span_of(body, n),
    decreases n,
{
    if n > 0 {
        lemma_gathered_len(ram, base, body, n - 1);
        assert(buffer_suits(ram.len(), base, BlockRequestKind::Write, body[n - 1]));
    }
}

/// A host request that a chain yields can be completed and suits the disk.
pub proof fn lemma_host_request_wf(
    size: u64,
    ram: Seq<u8>,
    base: u64,
    chain: Seq<Descriptor>,
    id: u64,
)
    ensures
        host_request(size, ram, base, chain, id) matches Some(request) ==> request.wf()
            && request.suits(size),
{
    if let Some(request) = host_request(size, ram, base, chain, id) {
        let body = body_of(chain);
        lemma_span_grows(body, 0, body.len() as int);
        if request.kind is Write {
            lemma_gathered_len(ram, base, body, body.len() as int);
        }
        if request.kind is Read {
            lemma_buffered(request.read_buffers, body, body.len() as int);
        }
    }
}

/// Answer a chain with an I/O error.
fn reject(ram: &mut [u8], ram_base: u64, status_addr: u64, jit: &mut JitPageState) -> (written:
    Option<u32>)
    requires
        old(jit).wf(),
    ensures
        final(jit).wf(),
        written == Some(1u32),
        memory(final(ram)@, *final(jit)) == memory(old(ram)@, *old(jit)).written(
            ram_base,
            status_addr as int,
            seq![1u8],
        ),
{
    let status: [u8; 1] = [1];
    assert(status@ =~= seq![1u8]);
    guest_write(ram, ram_base, status_addr, &status, jit);
    Some(1)
}

/// Whether a data buffer suits the operation.
fn suits(ram: &[u8], ram_base: u64, kind: BlockRequestKind, d: Descriptor) -> (ok: bool)
    ensures
        ok == buffer_suits(ram@.len(), ram_base, kind, d),
{
    match kind {
        BlockRequestKind::Read => d.writable && checked_ram_range(
            ram.len(),
            ram_base,
            d.addr,
            d.len as usize,
        ).is_some(),
        BlockRequestKind::Write => !d.writable && checked_ram_range(
            ram.len(),
            ram_base,
            d.addr,
            d.len as usize,
        ).is_some(),
        BlockRequestKind::Flush => d.len == 0,
    }
}

/// The host request that a chain asks for, if the host can be asked to serve
/// it.
fn parse_host_request(
    size: u64,
    id: u64,
    chain: &[Descriptor],
    ram: &[u8],
    ram_base: u64,
) -> (request: Option<PendingBlockRequest>)
    requires
        chain@.len() > 0,
    ensures
        pending_view(request) == host_request(size, ram@, ram_base, chain@, id),
{
    let first = chain[0];
    if chain.len() < 2 || first.len < 16 || first.writable {
        return None;
    }
    let header: &[u8] = match guest_slice(ram, ram_base, first.addr, 16) {
        Some(header) => header,
        None => {
            return None;
        },
    };
    let request_type: u64 = crate::bytes::read_le(header, 0, 4);
    let sector: u64 = crate::bytes::read_le(header, 8, 8);
    let kind = if request_type == VIRTIO_BLK_T_IN as u64 {
        BlockRequestKind::Read
    } else if request_type == VIRTIO_BLK_T_OUT as u64 {
        BlockRequestKind::Write
    } else if request_type == VIRTIO_BLK_T_FLUSH as u64 {
        BlockRequestKind::Flush
    } else {
        return None;
    };
    let offset: u64 = match sector.checked_mul(512) {
        Some(offset) => offset,
        None => {
            return None;
        },
    };
    let ghost body = body_of(chain@);
    let mut length: u64 = 0;
    let mut read_buffers: Vec<(u64, u32)> = Vec::new();
    let mut data: Vec<u8> = Vec::new();
    let mut i: usize = 1;
    while i < chain.len() - 1
        invariant
            2 <= chain@.len(),
            1 <= i <= chain@.len() - 1,
            body == body_of(chain@),
            length == span_of(body, i - 1),
            length <= MAX_DISK_OPERATION,
            forall|k: int|
                0 <= k < i - 1 ==> buffer_suits(ram@.len(), ram_base, kind, #[trigger] body[k]),
            kind is Read ==> read_buffers@ == body.subrange(0, i - 1).map_values(
                |d: Descriptor| (d.addr, d.len),
            ),
            !(kind is Read) ==> read_buffers@ == Seq::<(u64, u32)>::empty(),
            data@ == if kind is Write {
                gathered(ram@, ram_base, body, i - 1)
            } else {
                Seq::empty()
            },
            !(exists|k: int|
                0 <= k < body.len() && !buffer_suits(ram@.len(), ram_base, kind, #[trigger] body[k]))
                && span_of(body, body.len() as int) <= MAX_DISK_OPERATION || pending_view(None)
                == host_request(size, ram@, ram_base, chain@, id),
        decreases chain@.len() - i,
    {
        let d = chain[i];
        assert(body[i - 1] == d);
        if !suits(ram, ram_base, kind, d) {
            return None;
        }
        proof {
            lemma_span_grows(body, i as int, body.len() as int);
        }
        let next: u64 = length + d.len as u64;
        if next > MAX_DISK_OPERATION {
            return None;
        }
        length = next;
        match kind {
            BlockRequestKind::Read => {
                read_buffers.push((d.addr, d.len));
                assert(read_buffers@ =~= body.subrange(0, i as int).map_values(
                    |d: Descriptor| (d.addr, d.len),
                ));
            },
            BlockRequestKind::Write => {
                if let Some(source) = guest_slice(ram, ram_base, d.addr, d.len) {
                    push_all(&mut data, source);
                }
            },
            BlockRequestKind::Flush => {},
        }
        i = i + 1;
    }
    assert(body.subrange(0, i - 1) =~= body);
    match kind {
        BlockRequestKind::Flush => {
            if chain.len() != 2 {
                return None;
            }
        },
        _ => {
            let end: u64 = match offset.checked_add(length) {
                Some(end) => end,
                None => {
                    return None;
                },
            };
            if length == 0 || end > size {
                return None;
            }
        },
    }
    let request = PendingBlockRequest {
        id,
        kind,
        offset,
        data,
        length,
        read_buffers,
        status_addr: chain[chain.len() - 1].addr,
        queue_index: 0,
        head: 0,
        used_index_addr: 0,
        used_entry: 0,
        used_idx: 0,
    };
    Some(request)
}

/// Service one chain on a disk that the host keeps.
fn service_external(
    size: u64,
    pending: &mut Option<PendingBlockRequest>,
    next_id: &mut u64,
    qi: usize,
    chain: &[Descriptor],
    ram: &mut [u8],
    ram_base: u64,
    jit: &mut JitPageState,
) -> (written: Option<u32>)
    requires
        old(jit).wf(),
    ensures
        final(jit).wf(),
        ({
            let s = external_serviced(
                size,
                pending_view(*old(pending)),
                memory(old(ram)@, *old(jit)),
                *old(next_id),
                ram_base,
                qi as int,
                chain@,
            );
            &&& s.backend == BackendView::ExternalBlock {
                size,
                pending: pending_view(*final(pending)),
            }
            &&& s.mem == memory(final(ram)@, *final(jit))
            &&& s.written == written
            &&& s.next_id == *final(next_id)
        }),
{
    if qi != 0 {
        return Some(0);
    }
    if pending.is_some() {
        return None;
    }
    if chain.len() == 0 {
        return Some(0);
    }
    let status = chain[chain.len() - 1];
    if status.len < 1 || !status.writable || checked_ram_range(
        ram.len(),
        ram_base,
        status.addr,
        1,
    ).is_none() {
        return Some(0);
    }
    match parse_host_request(size, *next_id, chain, ram, ram_base) {
        Some(request) => {
            *pending = Some(request);
            *next_id = next_id.wrapping_add(1);
            None
        },
        None => reject(ram, ram_base, status.addr, jit),
    }
}

proof fn lemma_room(chain: Seq<Descriptor>, n: int)
    requires
        0 <= n <= chain.len(),
    ensures
        0 <= room_in(chain, n) <= n * 0xffff_ffff,
    decreases n,
{
    if n > 0 {
        lemma_room(chain, n - 1);
    }
}

/// Deliver the oldest waiting frame into the buffers of `chain`.
fn service_rx(
    inbox: &mut Vec<Vec<u8>>,
    chain: &[Descriptor],
    ram: &mut [u8],
    ram_base: u64,
    jit: &mut JitPageState,
) -> (written: Option<u32>)
    requires
        old(jit).wf(),
        chain@.len() <= 256,
    ensures
        final(jit).wf(),
        ({
            let s = net_serviced(
                Seq::empty(),
                frames(old(inbox)@),
                Seq::empty(),
                memory(old(ram)@, *old(jit)),
                0,
                ram_base,
                0,
                chain@,
            );
            &&& s.backend == BackendView::Net {
                mac: Seq::empty(),
                inbox: frames(final(inbox)@),
                outbox: Seq::empty(),
            }
            &&& s.mem == memory(final(ram)@, *final(jit))
            &&& s.written == written
        }),
{
    if inbox.len() == 0 {
        return None;
    }
    let ghost waiting = inbox@;
    let frame: Vec<u8> = inbox.remove(0);
    assert(frames(inbox@) =~= frames(waiting).drop_first());
    assert(frame@ == frames(waiting)[0]);
    let mut src: Vec<u8> = Vec::new();
    push_le(&mut src, 0, 10);
    push_le(&mut src, 1, 2);
    proof {
        reveal_with_fuel(le_bytes, 11);
        assert(src@ =~= rx_header());
    }
    push_all(&mut src, frame.as_slice());
    let mut capacity: u64 = 0;
    let mut i: usize = 0;
    while i < chain.len()
        invariant
            i <= chain@.len() <= 256,
            capacity == room_in(chain@, i as int),
        decreases chain@.len() - i,
    {
        proof {
            lemma_room(chain@, i as int);
        }
        if chain[i].writable {
            capacity = capacity + chain[i].len as u64;
        }
        i = i + 1;
    }
    if capacity < src.len() as u64 {
        return None;
    }
    let ghost mem = memory(ram@, *jit);
    let mut written: usize = 0;
    let mut stopped = false;
    i = 0;
    while i < chain.len()
        invariant
            i <= chain@.len(),
            jit.wf(),
            ({
                let s = scattered(mem, ram_base, src@, chain@, i as int);
                &&& s.mem == memory(ram@, *jit)
                &&& s.written == written
                &&& s.stopped == stopped
            }),
            written <= src@.len(),
        decreases chain@.len() - i,
    {
        let d = chain[i];
        if !stopped && d.writable && written < src.len() {
            let left: usize = src.len() - written;
            let n: usize = if left as u64 <= d.len as u64 {
                left
            } else {
                d.len as usize
            };
            let piece: Vec<u8> = copy_range(src.as_slice(), written, written + n);
            if guest_write(ram, ram_base, d.addr, piece.as_slice(), jit) {
                written = written + n;
            } else {
                stopped = true;
            }
        }
        i = i + 1;
    }
    Some((written as u64 % 0x1_0000_0000) as u32)
}

/// Reassemble the frame in the read-only buffers of `chain` and strip the
/// header that the guest prepended.
fn service_tx(
    outbox: &mut Vec<Vec<u8>>,
    chain: &[Descriptor],
    ram: &[u8],
    ram_base: u64,
)
    ensures
        frames(final(outbox)@) == sent(frames(old(outbox)@), ram@, ram_base, chain@),
{
    let mut frame: Vec<u8> = Vec::new();
    let mut i: usize = 0;
    while i < chain.len()
        invariant
            i <= chain@.len(),
            collected(ram@, ram_base, chain@, i as int) == Some(frame@),
            outbox@ == old(outbox)@,
        decreases chain@.len() - i,
    {
        let d = chain[i];
        if !d.writable {
            match guest_slice(ram, ram_base, d.addr, d.len) {
                Some(part) => push_all(&mut frame, part),
                None => {
                    proof {
                        lemma_collected_none(ram@, ram_base, chain@, i + 1, chain@.len() as int);
                    }
                    return ;
                },
            }
        }
        i = i + 1;
    }
    if frame.len() > NET_HDR_LEN && frame.len() - NET_HDR_LEN <= NET_MAX_FRAME && outbox.len()
        < NET_QUEUE_LIMIT {
        let body: Vec<u8> = copy_range(frame.as_slice(), NET_HDR_LEN, frame.len());
        outbox.push(body);
        assert(frames(outbox@) =~= frames(old(outbox)@).push(body@));
    }
}

proof fn lemma_collected_none(ram: Seq<u8>, base: u64, chain: Seq<Descriptor>, m: int, n: int)
    requires
        0 <= m <= n <= chain.len(),
        collected(ram, base, chain, m) is None,
    ensures
        collected(ram, base, chain, n) is None,
    decreases n,
{
    if m < n {
        lemma_collected_none(ram, base, chain, m, n - 1);
    }
}

// ---- the device ----------------------------------------------------------

/// One virtqueue, as the driver configured it.
#[derive(Clone, Copy, PartialEq, Eq, Structural)]
pub struct Queue {
    pub ready: u32,
    pub num: u32,
    pub desc: u64,
    pub avail: u64,
    pub used: u64,
    pub last_avail_idx: u16,
}

/// A virtio-mmio device.
pub struct VirtioDev {
    pub backend: Backend,
    status: u32,
    device_features_sel: u32,
    driver_features_sel: u32,
    queue_sel: u32,
    queues: [Queue; 2],
    /// bit 0: used-ring update pending
    pub int_status: u32,
    next_request_id: u64,
}

/// The state of a [`VirtioDev`].
#[verifier::ext_equal]
pub struct DeviceView {
    pub backend: BackendView,
    pub status: u32,
    pub device_features_sel: u32,
    pub driver_features_sel: u32,
    pub queue_sel: u32,
    pub queues: Seq<Queue>,
    pub int_status: u32,
    pub next_id: u64,
}

/// A queue that no driver has configured.
pub open spec fn empty_queue() -> Queue {
    Queue { ready: 0, num: 0, desc: 0, avail: 0, used: 0, last_avail_idx: 0 }
}

impl View for VirtioDev {
    type V = DeviceView;

    closed spec fn view(&self) -> DeviceView {
        DeviceView {
            backend: self.backend@,
            status: self.status,
            device_features_sel: self.device_features_sel,
            driver_features_sel: self.driver_features_sel,
            queue_sel: self.queue_sel,
            queues: self.queues@,
            int_status: self.int_status,
            next_id: self.next_request_id,
        }
    }
}

impl DeviceView {
    /// Two queues of at most 256 entries, one of them selected, and a backend
    /// whose pending request can be completed.
    pub open spec fn wf(self) -> bool {
        &&& self.backend.wf()
        &&& self.queues.len() == MAX_QUEUES
        &&& self.queue_sel < MAX_QUEUES
        &&& forall|i: int| 0 <= i < self.queues.len() ==> (#[trigger] self.queues[i]).num <= 256
    }

    /// The device with queue `qi` replaced.
    pub open spec fn with_queue(self, qi: int, q: Queue) -> DeviceView {
        DeviceView { queues: self.queues.update(qi, q), ..self }
    }

    /// The frames that wait for the host.
    pub open spec fn outbox(self) -> Seq<Seq<u8>> {
        match self.backend {
            BackendView::Net { mac, inbox, outbox } => outbox,
            _ => Seq::empty(),
        }
    }

    /// The request that waits for the host.
    pub open spec fn pending(self) -> Option<PendingView> {
        match self.backend {
            BackendView::ExternalBlock { size, pending } => pending,
            _ => None,
        }
    }

    /// The device after the host sent a frame. It is dropped where it may not be
    /// moved or there is no room.
    pub open spec fn with_input(self, frame: Seq<u8>) -> DeviceView {
        match self.backend {
            BackendView::Net { mac, inbox, outbox } if frame.len() <= NET_MAX_FRAME && inbox.len()
                < NET_QUEUE_LIMIT => DeviceView {
                backend: BackendView::Net { mac, inbox: inbox.push(frame), outbox },
                ..self
            },
            _ => self,
        }
    }

    /// The device after the host collected the frames that wait for it.
    pub open spec fn without_output(self) -> DeviceView {
        match self.backend {
            BackendView::Net { mac, inbox, outbox } => DeviceView {
                backend: BackendView::Net { mac, inbox, outbox: Seq::empty() },
                ..self
            },
            _ => self,
        }
    }

    /// The virtio device id.
    pub open spec fn id(self) -> u32 {
        if self.backend is Net {
            1
        } else {
            2
        }
    }

    /// Ring depth advertised to the driver.
    pub open spec fn ring_depth(self) -> u32 {
        if self.backend is Net {
            256
        } else {
            16
        }
    }

    /// Feature bits for word `sel` (0 = bits 0-31, 1 = bits 32-63): modern
    /// queue layout for all, the MAC of a network device, and the size limits
    /// and flush of a disk that the host keeps.
    pub open spec fn features(self, sel: u32) -> u32 {
        if sel == 1 {
            1
        } else if sel == 0 && self.backend is Net {
            0x20
        } else if sel == 0 && self.backend is ExternalBlock {
            0x206
        } else {
            0
        }
    }

    /// One byte of device-specific configuration space.
    pub open spec fn config(self, off: int) -> u8 {
        match self.backend {
            BackendView::Block { disk } => if off < 8 {
                le_bytes((disk.len() / 512) as nat, 8)[off]
            } else {
                0
            },
            BackendView::ExternalBlock { size, pending } => if off < 8 {
                le_bytes((size / 512) as nat, 8)[off]
            } else if off < 12 {
                le_bytes(MAX_DISK_OPERATION as nat, 4)[off - 8]
            } else if off < 16 {
                le_bytes(MAX_DISK_SEGMENTS as nat, 4)[off - 12]
            } else {
                0
            },
            BackendView::Net { mac, inbox, outbox } => if off < mac.len() {
                mac[off]
            } else {
                0
            },
        }
    }

    /// The register that a read of `n` bytes at `offset` gives.
    pub open spec fn register(self, offset: u64, n: int) -> nat {
        if offset >= 0x100 {
            le_value(Seq::new(n as nat, |i: int| self.config(offset - 0x100 + i)))
        } else if offset == 0x000 {
            0x7472_6976
        } else if offset == 0x004 {
            2
        } else if offset == 0x008 {
            self.id() as nat
        } else if offset == 0x00c {
            0xffff
        } else if offset == 0x010 {
            self.features(self.device_features_sel) as nat
        } else if offset == 0x034 {
            self.ring_depth() as nat
        } else if offset == 0x044 {
            self.queues[self.queue_sel as int].ready as nat
        } else if offset == 0x060 {
            self.int_status as nat
        } else if offset == 0x070 {
            self.status as nat
        } else {
            0
        }
    }

    /// The device after a write of `val` to the register at `offset`.
    pub open spec fn register_written(self, offset: u64, val: u32) -> DeviceView {
        let sel = self.queue_sel as int;
        let q = self.queues[sel];
        if offset == 0x014 {
            DeviceView { device_features_sel: val, ..self }
        } else if offset == 0x024 {
            DeviceView { driver_features_sel: val, ..self }
        } else if offset == 0x030 {
            DeviceView {
                queue_sel: if val < 1 {
                    val
                } else {
                    1
                },
                ..self
            }
        } else if offset == 0x038 {
            self.with_queue(
                sel,
                Queue {
                    num: if val < self.ring_depth() {
                        val
                    } else {
                        self.ring_depth()
                    },
                    ..q
                },
            )
        } else if offset == 0x044 {
            self.with_queue(sel, Queue { ready: val % 2, ..q })
        } else if offset == 0x064 {
            DeviceView { int_status: self.int_status & !val, ..self }
        } else if offset == 0x070 && val == 0 {
            DeviceView {
                status: 0,
                queues: seq![empty_queue(), empty_queue()],
                int_status: 0,
                backend: match self.backend {
                    BackendView::ExternalBlock { size, pending } => BackendView::ExternalBlock {
                        size,
                        pending: None,
                    },
                    other => other,
                },
                ..self
            }
        } else if offset == 0x070 {
            DeviceView { status: val, ..self }
        } else if offset == 0x080 {
            self.with_queue(sel, Queue { desc: low_set(q.desc, val), ..q })
        } else if offset == 0x084 {
            self.with_queue(sel, Queue { desc: high_set(q.desc, val), ..q })
        } else if offset == 0x090 {
            self.with_queue(sel, Queue { avail: low_set(q.avail, val), ..q })
        } else if offset == 0x094 {
            self.with_queue(sel, Queue { avail: high_set(q.avail, val), ..q })
        } else if offset == 0x0a0 {
            self.with_queue(sel, Queue { used: low_set(q.used, val), ..q })
        } else if offset == 0x0a4 {
            self.with_queue(sel, Queue { used: high_set(q.used, val), ..q })
        } else {
            self
        }
    }
}

/// `v` with its low word replaced.
pub open spec fn low_set(v: u64, val: u32) -> u64 {
    (v / 0x1_0000_0000 * 0x1_0000_0000 + val) as u64
}

/// `v` with its high word replaced.
pub open spec fn high_set(v: u64, val: u32) -> u64 {
    (val * 0x1_0000_0000 + v % 0x1_0000_0000) as u64
}

/// The descriptor chain that starts at table entry `di`, of at most `limit`
/// entries, unless the table leaves RAM.
pub open spec fn chain_at(ram: Seq<u8>, base: u64, desc: u64, di: nat, limit: nat) -> Option<
    Seq<Descriptor>,
>
    decreases limit,
{
    if limit == 0 {
        Some(Seq::empty())
    } else {
        let entry = desc + di * 16;
        match (
            guest_value(ram, base, entry, 8),
            guest_value(ram, base, entry + 8, 4),
            guest_value(ram, base, entry + 12, 2),
        ) {
            (Some(addr), Some(len), Some(flags)) => {
                let d = Descriptor {
                    addr: addr as u64,
                    len: len as u32,
                    writable: flags / 2 % 2 == 1,
                };
                if flags % 2 == 0 {
                    Some(seq![d])
                } else {
                    match guest_value(ram, base, entry + 14, 2) {
                        None => None,
                        Some(next) => match chain_at(ram, base, desc, next, (limit - 1) as nat) {
                            None => None,
                            Some(rest) => Some(seq![d] + rest),
                        },
                    }
                }
            },
            _ => None,
        }
    }
}

/// A chain on the available ring, and the used-ring entry that will answer it.
#[verifier::ext_equal]
pub struct Work {
    pub head: u16,
    pub chain: Seq<Descriptor>,
    pub used_index_addr: u64,
    pub used_entry: u64,
    pub used_idx: u16,
}

/// The next chain that queue `q` offers, if there is one and both rings are in
/// RAM.
pub open spec fn next_work(ram: Seq<u8>, base: u64, q: Queue) -> Option<Work> {
    let slot = q.last_avail_idx as int % q.num as int;
    let avail_idx = guest_value(ram, base, q.avail + 2, 2);
    let head = guest_value(ram, base, q.avail + 4 + slot * 2, 2);
    let used_idx = guest_value(ram, base, q.used + 2, 2);
    if q.num == 0 || avail_idx is None || avail_idx->0 == q.last_avail_idx || head is None
        || used_idx is None {
        None
    } else {
        let used_entry = q.used + 4 + (used_idx->0 as int % q.num as int) * 8;
        match chain_at(ram, base, q.desc, head->0, q.num as nat) {
            Some(chain) if in_ram(ram.len(), base, used_entry, 8) => Some(
                Work {
                    head: head->0 as u16,
                    chain,
                    used_index_addr: (q.used + 2) as u64,
                    used_entry: used_entry as u64,
                    used_idx: used_idx->0 as u16,
                },
            ),
            _ => None,
        }
    }
}

/// The memory after a used-ring entry is published.
pub open spec fn published(
    mem: Memory,
    base: u64,
    used_entry: u64,
    head: u16,
    written: u32,
    used_index_addr: u64,
    used_idx: u16,
) -> Memory {
    mem.written(base, used_entry as int, le_bytes(head as nat, 4)).written(
        base,
        used_entry + 4,
        le_bytes(written as nat, 4),
    ).written(
        base,
        used_index_addr as int,
        le_bytes(vstd::wrapping::u16_specs::wrapping_add(used_idx, 1) as nat, 2),
    )
}

/// What one turn of a queue leaves behind.
#[verifier::ext_equal]
pub struct Turn {
    pub dev: DeviceView,
    pub mem: Memory,
    pub more: bool,
}

/// One turn of queue `qi`: take the next chain, service it, and publish the
/// answer. A chain that cannot be serviced yet stays on the ring.
pub open spec fn turn(dev: DeviceView, mem: Memory, base: u64, qi: int) -> Turn {
    let q = dev.queues[qi];
    match next_work(mem.ram, base, q) {
        None => Turn { dev, mem, more: false },
        Some(work) => {
            let s = serviced(dev.backend, mem, dev.next_id, base, qi, work.chain);
            match s.written {
                None => Turn {
                    dev: DeviceView {
                        backend: match s.backend {
                            BackendView::ExternalBlock {
                                size,
                                pending: Some(request),
                            } => BackendView::ExternalBlock {
                                size,
                                pending: Some(
                                    PendingView {
                                        head: work.head,
                                        used_index_addr: work.used_index_addr,
                                        used_entry: work.used_entry,
                                        used_idx: work.used_idx,
                                        ..request
                                    },
                                ),
                            },
                            other => other,
                        },
                        next_id: s.next_id,
                        ..dev
                    },
                    mem: s.mem,
                    more: false,
                },
                Some(written) => Turn {
                    dev: DeviceView {
                        backend: s.backend,
                        next_id: s.next_id,
                        queues: dev.queues.update(
                            qi,
                            Queue {
                                last_avail_idx: vstd::wrapping::u16_specs::wrapping_add(
                                    q.last_avail_idx,
                                    1,
                                ),
                                ..q
                            },
                        ),
                        int_status: dev.int_status | 1,
                        ..dev
                    },
                    mem: published(
                        s.mem,
                        base,
                        work.used_entry,
                        work.head,
                        written,
                        work.used_index_addr,
                        work.used_idx,
                    ),
                    more: true,
                },
            }
        },
    }
}

/// Queue `qi` turned until it comes to rest, or `fuel` times.
pub open spec fn drained(dev: DeviceView, mem: Memory, base: u64, qi: int, fuel: nat) -> (
    DeviceView,
    Memory,
)
    decreases fuel,
{
    let t = turn(dev, mem, base, qi);
    if fuel == 0 {
        (dev, mem)
    } else if t.more {
        drained(t.dev, t.mem, base, qi, (fuel - 1) as nat)
    } else {
        (t.dev, t.mem)
    }
}

/// Queue `qi` after the driver notified it. A queue that is not ready, and a
/// device that waits for the host, do nothing.
pub open spec fn notified(dev: DeviceView, mem: Memory, base: u64, qi: int) -> (
    DeviceView,
    Memory,
) {
    if qi >= MAX_QUEUES || dev.queues[qi].ready == 0 || dev.backend.awaits_host() {
        (dev, mem)
    } else {
        drained(dev, mem, base, qi, u32::MAX as nat)
    }
}

/// The first `n` read buffers of a request filled from `data`.
pub open spec fn read_filled(
    mem: Memory,
    base: u64,
    request: PendingView,
    data: Seq<u8>,
    n: int,
) -> Memory
    decreases n,
{
    if n <= 0 {
        mem
    } else {
        read_filled(mem, base, request, data, n - 1).written(
            base,
            request.read_buffers[n - 1].0 as int,
            data.subrange(buffered(request.read_buffers, n - 1), buffered(request.read_buffers, n)),
        )
    }
}

/// Whether everything that a completion writes lies in a RAM of `len` bytes.
pub open spec fn targets_mapped(len: nat, base: u64, request: PendingView) -> bool {
    &&& request.kind is Read ==> forall|i: int|
        0 <= i < request.read_buffers.len() ==> in_ram(
            len,
            base,
            (#[trigger] request.read_buffers[i]).0 as int,
            request.read_buffers[i].1 as int,
        )
    &&& in_ram(len, base, request.status_addr as int, 1)
    &&& in_ram(len, base, request.used_entry as int, 8)
    &&& in_ram(len, base, request.used_index_addr as int, 2)
}

/// Whether the host's answer carries out the request: it did not fail, a read
/// brings exactly the bytes asked for, and nothing else brings any.
pub open spec fn answer_carries(request: PendingView, data: Seq<u8>, ok: bool) -> bool {
    ok && data.len() == if request.kind is Read {
        request.length as nat
    } else {
        0
    }
}

/// The memory after the host answers `request`: a read that succeeds fills its
/// buffers, and every answer publishes one status byte and one used entry.
pub open spec fn answered(
    mem: Memory,
    base: u64,
    request: PendingView,
    data: Seq<u8>,
    ok: bool,
) -> Memory {
    let carried = answer_carries(request, data, ok);
    let filled = if carried && request.kind is Read {
        read_filled(mem, base, request, data, request.read_buffers.len() as int)
    } else {
        mem
    };
    published(
        filled.written(
            base,
            request.status_addr as int,
            seq![
                if carried {
                    0u8
                } else {
                    1u8
                },
            ],
        ),
        base,
        request.used_entry,
        request.head,
        if carried && request.kind is Read {
            (request.length + 1) as u32
        } else {
            1
        },
        request.used_index_addr,
        request.used_idx,
    )
}

/// The request that a completion numbered `id` answers: the pending one, if it
/// has that number and its targets lie in RAM.
pub open spec fn answerable(dev: DeviceView, ram_len: nat, base: u64, id: u64) -> Option<
    PendingView,
> {
    match dev.backend {
        BackendView::ExternalBlock { size, pending: Some(request) } => if request.id == id
            && targets_mapped(ram_len, base, request) {
            Some(request)
        } else {
            None
        },
        _ => None,
    }
}

/// The device after the host answered `request`.
pub open spec fn released(dev: DeviceView, request: PendingView) -> DeviceView {
    let q = dev.queues[request.queue_index];
    DeviceView {
        backend: BackendView::ExternalBlock { size: dev.backend->ExternalBlock_size, pending: None },
        queues: dev.queues.update(
            request.queue_index,
            Queue {
                last_avail_idx: vstd::wrapping::u16_specs::wrapping_add(q.last_avail_idx, 1),
                ..q
            },
        ),
        int_status: dev.int_status | 1,
        ..dev
    }
}

pub(crate) proof fn lemma_read_filled_len(
    mem: Memory,
    base: u64,
    request: PendingView,
    data: Seq<u8>,
    n: int,
)
    ensures
        read_filled(mem, base, request, data, n).ram.len() == mem.ram.len(),
    decreases n,
{
    if n > 0 {
        lemma_read_filled_len(mem, base, request, data, n - 1);
    }
}

proof fn lemma_buffered_grows(buffers: Seq<(u64, u32)>, m: int, n: int)
    requires
        0 <= m <= n <= buffers.len(),
    ensures
        0 <= buffered(buffers, m) <= buffered(buffers, n),
    decreases n,
{
    if n > 0 {
        if m < n {
            lemma_buffered_grows(buffers, m, n - 1);
        } else {
            lemma_buffered_grows(buffers, m - 1, n - 1);
        }
    }
}

pub(crate) proof fn lemma_block_run_len(r: BlockRun, base: u64, kind: nat, body: Seq<Descriptor>)
    ensures
        block_run(r, base, kind, body).mem.ram.len() == r.mem.ram.len(),
        block_run(r, base, kind, body).disk.len() == r.disk.len(),
    decreases body.len(),
{
    if body.len() > 0 {
        lemma_block_run_len(r, base, kind, body.drop_last());
    }
}

proof fn lemma_scattered_len(
    mem: Memory,
    base: u64,
    src: Seq<u8>,
    chain: Seq<Descriptor>,
    n: int,
)
    ensures
        scattered(mem, base, src, chain, n).mem.ram.len() == mem.ram.len(),
    decreases n,
{
    if n > 0 {
        lemma_scattered_len(mem, base, src, chain, n - 1);
    }
}

/// Servicing a chain keeps the size of RAM and the backend's validity.
pub proof fn lemma_serviced_wf(
    backend: BackendView,
    mem: Memory,
    next_id: u64,
    base: u64,
    qi: int,
    chain: Seq<Descriptor>,
)
    requires
        backend.wf(),
    ensures
        serviced(backend, mem, next_id, base, qi, chain).backend.wf(),
        serviced(backend, mem, next_id, base, qi, chain).mem.ram.len() == mem.ram.len(),
{
    match backend {
        BackendView::Block { disk } => {
            let header = guest_bytes(mem.ram, base, chain[0].addr as int, 16);
            let start = BlockRun {
                disk,
                mem,
                pos: le_value(header.subrange(8, 16)) as int * 512,
                moved: 0,
                ok: true,
            };
            lemma_block_run_len(start, base, le_value(header.subrange(0, 4)), body_of(chain));
        },
        BackendView::ExternalBlock { size, pending } => {
            lemma_host_request_wf(size, mem.ram, base, chain, next_id);
        },
        BackendView::Net { mac, inbox, outbox } => {
            if inbox.len() > 0 {
                lemma_scattered_len(mem, base, rx_header() + inbox[0], chain, chain.len() as int);
            }
        },
    }
}

impl VirtioDev {
    /// See [`DeviceView::wf`].
    pub open spec fn wf(&self) -> bool {
        self@.wf()
    }

    /// A device in reset.
    pub fn new(backend: Backend) -> (dev: VirtioDev)
        requires
            backend@.wf(),
        ensures
            dev.wf(),
            dev@ == (DeviceView {
                backend: backend@,
                status: 0,
                device_features_sel: 0,
                driver_features_sel: 0,
                queue_sel: 0,
                queues: seq![empty_queue(), empty_queue()],
                int_status: 0,
                next_id: 1,
            }),
    {
        let empty = Queue { ready: 0, num: 0, desc: 0, avail: 0, used: 0, last_avail_idx: 0 };
        let dev = VirtioDev {
            backend,
            status: 0,
            device_features_sel: 0,
            driver_features_sel: 0,
            queue_sel: 0,
            queues: [empty, empty],
            int_status: 0,
            next_request_id: 1,
        };
        assert(dev.queues@ =~= seq![empty_queue(), empty_queue()]);
        dev
    }

    /// Number host requests from `first` on. Numbers that go on from those of a
    /// device that is gone keep a late answer to one of its requests from
    /// answering one of this device.
    pub fn number_from(&mut self, first: u64)
        requires
            old(self).wf(),
        ensures
            final(self).wf(),
            final(self)@ == (DeviceView { next_id: first, ..old(self)@ }),
    {
        self.next_request_id = first;
    }

    /// The number of the next host request.
    pub fn next_number(&self) -> (next: u64)
        ensures
            next == self@.next_id,
    {
        self.next_request_id
    }

    /// The virtio device id: 1 for a network device, 2 for a disk.
    pub fn device_id(&self) -> (id: u32)
        ensures
            id == self@.id(),
    {
        match &self.backend {
            Backend::Net { .. } => 1,
            _ => 2,
        }
    }

    fn device_features(&self, sel: u32) -> (features: u32)
        ensures
            features == self@.features(sel),
    {
        if sel == 1 {
            1
        } else if sel == 0 {
            match &self.backend {
                Backend::Net { .. } => 0x20,
                Backend::ExternalBlock { .. } => 0x206,
                Backend::Block { .. } => 0,
            }
        } else {
            0
        }
    }

    fn queue_num_max(&self) -> (max: u32)
        ensures
            max == self@.ring_depth(),
    {
        match &self.backend {
            Backend::Net { .. } => 256,
            _ => 16,
        }
    }

    /// True when this device's interrupt line should be raised.
    pub fn irq_pending(&self) -> (pending: bool)
        ensures
            pending == (self@.int_status != 0),
    {
        self.int_status != 0
    }

    /// (ready, num, avail_addr, used_addr, my last_avail_idx) for queue `qi`.
    pub fn queue_debug(&self, qi: usize) -> (state: Option<(u32, u32, u64, u64, u16)>)
        requires
            self.wf(),
        ensures
            state == if qi < MAX_QUEUES && self@.queues[qi as int].ready != 0 {
                let q = self@.queues[qi as int];
                Some((q.ready, q.num, q.avail, q.used, q.last_avail_idx))
            } else {
                None
            },
    {
        if qi < 2 && self.queues[qi].ready != 0 {
            let q = self.queues[qi];
            Some((q.ready, q.num, q.avail, q.used, q.last_avail_idx))
        } else {
            None
        }
    }

    fn config_u8(&self, off: u64) -> (byte: u8)
        requires
            self.wf(),
        ensures
            byte == self@.config(off as int),
    {
        let mut space: Vec<u8> = Vec::new();
        match &self.backend {
            Backend::Block { disk } => {
                push_le(&mut space, (disk.len() / 512) as u64, 8);
                proof {
                    crate::bytes::lemma_le_bytes_len((disk@.len() / 512) as nat, 8);
                }
            },
            Backend::ExternalBlock { size, .. } => {
                push_le(&mut space, *size / 512, 8);
                push_le(&mut space, MAX_DISK_OPERATION, 4);
                push_le(&mut space, MAX_DISK_SEGMENTS as u64, 4);
                proof {
                    crate::bytes::lemma_le_bytes_len((*size / 512) as nat, 8);
                    crate::bytes::lemma_le_bytes_len(MAX_DISK_OPERATION as nat, 4);
                    crate::bytes::lemma_le_bytes_len(MAX_DISK_SEGMENTS as nat, 4);
                }
            },
            Backend::Net { mac, .. } => {
                push_all(&mut space, mac);
            },
        }
        if off < space.len() as u64 {
            space[off as usize]
        } else {
            0
        }
    }

    fn config_value(&self, off: u64, n: usize) -> (value: u32)
        requires
            self.wf(),
            n <= 4,
            off + n <= u64::MAX,
        ensures
            value as nat == le_value(Seq::new(n as nat, |i: int| self@.config(off + i))),
    {
        let mut bytes: Vec<u8> = Vec::new();
        let mut i: usize = 0;
        while i < n
            invariant
                self.wf(),
                i <= n <= 4,
                off + n <= u64::MAX,
                bytes@ == Seq::new(i as nat, |k: int| self@.config(off + k)),
            decreases n - i,
        {
            bytes.push(self.config_u8(off + i as u64));
            i = i + 1;
            assert(bytes@ =~= Seq::new(i as nat, |k: int| self@.config(off + k)));
        }
        proof {
            crate::bytes::lemma_le_value_bound(bytes@);
            crate::bytes::lemma_span_monotone(n as nat, 4);
            crate::bytes::lemma_byte_spans();
            assert(bytes@.subrange(0, n as int) =~= bytes@);
        }
        crate::bytes::read_le(bytes.as_slice(), 0, n) as u32
    }

    /// MMIO read of four bytes.
    pub fn read(&mut self, offset: u64) -> (value: u32)
        requires
            old(self).wf(),
        ensures
            *final(self) == *old(self),
            value == old(self)@.register(offset, 4),
    {
        if offset >= 0x100 {
            self.config_value(offset - 0x100, 4)
        } else if offset == 0x000 {
            0x7472_6976  // magic "virt"

        } else if offset == 0x004 {
            2  // version

        } else if offset == 0x008 {
            self.device_id()
        } else if offset == 0x00c {
            0xffff  // vendor

        } else if offset == 0x010 {
            self.device_features(self.device_features_sel)
        } else if offset == 0x034 {
            self.queue_num_max()
        } else if offset == 0x044 {
            self.queues[self.queue_sel as usize].ready
        } else if offset == 0x060 {
            self.int_status
        } else if offset == 0x070 {
            self.status
        } else {
            0
        }
    }

    /// MMIO read of `size` bytes (1, 2 or 4).
    pub fn read_sized(&mut self, offset: u64, size: u32) -> (value: u32)
        requires
            old(self).wf(),
        ensures
            *final(self) == *old(self),
            value == old(self)@.register(
                offset,
                if size < 4 {
                    size as int
                } else {
                    4
                },
            ),
    {
        if offset >= 0x100 && size < 4 {
            return self.config_value(offset - 0x100, size as usize);
        }
        self.read(offset)
    }

    /// MMIO write. Returns the queue to process if the write is a notify.
    pub fn write(&mut self, offset: u64, val: u32) -> (notify: Option<u32>)
        requires
            old(self).wf(),
        ensures
            final(self).wf(),
            final(self)@ == old(self)@.register_written(offset, val),
            notify == if offset == 0x050 {
                Some(val)
            } else {
                None
            },
    {
        let sel: usize = self.queue_sel as usize;
        let mut q = self.queues[sel];
        let mut configured = true;
        if offset == 0x038 {
            let max: u32 = self.queue_num_max();
            q.num = if val < max {
                val
            } else {
                max
            };
        } else if offset == 0x044 {
            q.ready = val % 2;
        } else if offset == 0x080 {
            q.desc = set_lo(q.desc, val);
        } else if offset == 0x084 {
            q.desc = set_hi(q.desc, val);
        } else if offset == 0x090 {
            q.avail = set_lo(q.avail, val);
        } else if offset == 0x094 {
            q.avail = set_hi(q.avail, val);
        } else if offset == 0x0a0 {
            q.used = set_lo(q.used, val);
        } else if offset == 0x0a4 {
            q.used = set_hi(q.used, val);
        } else {
            configured = false;
        }
        if configured {
            self.queues[sel] = q;
            return None;
        }
        if offset == 0x014 {
            self.device_features_sel = val;
        } else if offset == 0x024 {
            self.driver_features_sel = val;
        } else if offset == 0x030 {
            self.queue_sel = if val < 1 {
                val
            } else {
                1
            };
        } else if offset == 0x050 {
            return Some(val);
        } else if offset == 0x064 {
            self.int_status = self.int_status & !val;
        } else if offset == 0x070 {
            self.status = val;
            if val == 0 {
                let empty = Queue {
                    ready: 0,
                    num: 0,
                    desc: 0,
                    avail: 0,
                    used: 0,
                    last_avail_idx: 0,
                };
                self.queues = [empty, empty];
                self.int_status = 0;
                assert(self.queues@ =~= seq![empty_queue(), empty_queue()]);
                if let Backend::ExternalBlock { pending, .. } = &mut self.backend {
                    *pending = None;
                }
            }
        }
        None
    }

    /// Queue a frame from the host for delivery to the guest. Dropped if the
    /// guest is not draining — the same thing a real NIC does when its ring
    /// backs up.
    pub fn net_input(&mut self, frame: &[u8])
        requires
            old(self).wf(),
        ensures
            final(self).wf(),
            final(self)@ == old(self)@.with_input(frame@),
    {
        if let Backend::Net { inbox, .. } = &mut self.backend {
            if frame.len() <= NET_MAX_FRAME && inbox.len() < NET_QUEUE_LIMIT {
                let ghost before = inbox@;
                let copy: Vec<u8> = vstd::slice::slice_to_vec(frame);
                inbox.push(copy);
                assert(frames(inbox@) =~= frames(before).push(frame@));
            }
        }
    }

    /// Collect the frames the guest has transmitted.
    pub fn net_take_output(&mut self) -> (sent: Vec<Vec<u8>>)
        requires
            old(self).wf(),
        ensures
            final(self).wf(),
            frames(sent@) == old(self)@.outbox(),
            final(self)@ == old(self)@.without_output(),
    {
        let mut sent: Vec<Vec<u8>> = Vec::new();
        if let Backend::Net { outbox, .. } = &mut self.backend {
            core::mem::swap(&mut sent, outbox);
            assert(frames(outbox@) =~= Seq::<Seq<u8>>::empty());
        }
        assert(frames(Seq::<Vec<u8>>::empty()) =~= Seq::<Seq<u8>>::empty());
        sent
    }

    /// True when this device has inbound frames waiting for an RX buffer.
    pub fn net_rx_pending(&self) -> (pending: bool)
        ensures
            pending == (self@.backend matches BackendView::Net { mac, inbox, outbox }
                && inbox.len() > 0),
    {
        match &self.backend {
            Backend::Net { inbox, .. } => inbox.len() > 0,
            _ => false,
        }
    }

    /// Return the one host operation that is waiting for completion.
    pub fn pending_block_request(&self) -> (request: Option<PendingBlockRequest>)
        ensures
            pending_view(request) == self@.pending(),
    {
        match &self.backend {
            Backend::ExternalBlock { pending, .. } => match pending {
                Some(request) => Some(request.copy()),
                None => None,
            },
            _ => None,
        }
    }

    /// Whether the device is a disk that the host keeps.
    pub(crate) fn is_external(&self) -> (external: bool)
        ensures
            external == self@.backend is ExternalBlock,
    {
        match &self.backend {
            Backend::ExternalBlock { .. } => true,
            _ => false,
        }
    }

    /// Whether a host operation is waiting for completion.
    pub fn has_pending_block_request(&self) -> (pending: bool)
        ensures
            pending == self@.backend.awaits_host(),
    {
        match &self.backend {
            Backend::ExternalBlock { pending, .. } => pending.is_some(),
            _ => false,
        }
    }
}

fn set_lo(v: u64, val: u32) -> (r: u64)
    ensures
        r == low_set(v, val),
{
    v / 0x1_0000_0000 * 0x1_0000_0000 + val as u64
}

fn set_hi(v: u64, val: u32) -> (r: u64)
    ensures
        r == high_set(v, val),
{
    val as u64 * 0x1_0000_0000 + v % 0x1_0000_0000
}

/// `rest` behind the entries already read, if the table stayed in RAM.
spec fn continued(read: Seq<Descriptor>, rest: Option<Seq<Descriptor>>) -> Option<
    Seq<Descriptor>,
> {
    match rest {
        Some(rest) => Some(read + rest),
        None => None,
    }
}

/// The descriptor chain that starts at table entry `head`.
fn read_chain(ram: &[u8], base: u64, desc: u64, head: u16, num: u32) -> (chain: Option<
    Vec<Descriptor>,
>)
    ensures
        match (chain, chain_at(ram@, base, desc, head as nat, num as nat)) {
            (Some(a), Some(b)) => a@ == b && b.len() <= num,
            (None, None) => true,
            _ => false,
        },
{
    let mut chain: Vec<Descriptor> = Vec::new();
    let mut di: u64 = head as u64;
    let mut i: u32 = 0;
    assert(continued(chain@, chain_at(ram@, base, desc, di as nat, num as nat)) =~= chain_at(
        ram@,
        base,
        desc,
        head as nat,
        num as nat,
    ));
    while i < num
        invariant
            i <= num,
            di <= 0xffff,
            chain@.len() == i,
            continued(chain@, chain_at(ram@, base, desc, di as nat, (num - i) as nat)) == chain_at(
                ram@,
                base,
                desc,
                head as nat,
                num as nat,
            ),
        decreases num - i,
    {
        proof {
            crate::bytes::lemma_byte_spans();
        }
        let ghost whole = chain_at(ram@, base, desc, head as nat, num as nat);
        let addr: u64 = match read_guest(ram, base, desc, di * 16, 8) {
            Some(addr) => addr,
            None => {
                return None;
            },
        };
        let entry: u64 = desc + di * 16;
        let len: u64 = match read_guest(ram, base, entry, 8, 4) {
            Some(len) => len,
            None => {
                return None;
            },
        };
        let flags: u64 = match read_guest(ram, base, entry, 12, 2) {
            Some(flags) => flags,
            None => {
                return None;
            },
        };
        proof {
            crate::bytes::lemma_le_value_bound(guest_bytes(ram@, base, entry + 8, 4));
            crate::bytes::lemma_le_value_bound(guest_bytes(ram@, base, entry + 12, 2));
        }
        let d = Descriptor { addr, len: len as u32, writable: flags / 2 % 2 == 1 };
        let ghost read = chain@;
        chain.push(d);
        if flags % 2 == 0 {
            assert(chain@ =~= read + seq![d]);
            return Some(chain);
        }
        let next: u64 = match read_guest(ram, base, entry, 14, 2) {
            Some(next) => next,
            None => {
                return None;
            },
        };
        proof {
            crate::bytes::lemma_le_value_bound(guest_bytes(ram@, base, entry + 14, 2));
            let tail = chain_at(ram@, base, desc, next as nat, (num - i - 1) as nat);
            if tail is Some {
                assert(read + (seq![d] + tail->0) =~= chain@ + tail->0);
            }
            assert(continued(chain@, tail) == whole);
        }
        di = next;
        i = i + 1;
    }
    assert(chain@ + Seq::<Descriptor>::empty() =~= chain@);
    Some(chain)
}

/// A chain on the available ring, and the used-ring entry that will answer it.
struct NextWork {
    head: u16,
    chain: Vec<Descriptor>,
    used_index_addr: u64,
    used_entry: u64,
    used_idx: u16,
}

/// The next chain that `q` offers.
fn take_work(ram: &[u8], base: u64, q: Queue) -> (work: Option<NextWork>)
    requires
        q.num <= 256,
    ensures
        match (work, next_work(ram@, base, q)) {
            (Some(a), Some(b)) => {
                &&& a.head == b.head
                &&& a.chain@ == b.chain
                &&& a.used_index_addr == b.used_index_addr
                &&& a.used_entry == b.used_entry
                &&& a.used_idx == b.used_idx
                &&& b.chain.len() <= 256
                &&& in_ram(ram@.len(), base, a.used_entry as int, 8)
            },
            (None, None) => true,
            _ => false,
        },
{
    if q.num == 0 {
        return None;
    }
    proof {
        crate::bytes::lemma_byte_spans();
    }
    let avail_idx: u64 = match read_guest(ram, base, q.avail, 2, 2) {
        Some(avail_idx) => avail_idx,
        None => {
            return None;
        },
    };
    if avail_idx == q.last_avail_idx as u64 {
        return None;
    }
    let slot: u64 = q.last_avail_idx as u64 % q.num as u64;
    let head: u64 = match read_guest(ram, base, q.avail, 4 + slot * 2, 2) {
        Some(head) => head,
        None => {
            return None;
        },
    };
    proof {
        crate::bytes::lemma_le_value_bound(guest_bytes(ram@, base, q.avail + 4 + slot * 2, 2));
        assert(q.avail + (4 + slot * 2) == q.avail + 4 + slot * 2);
    }
    let chain: Vec<Descriptor> = match read_chain(ram, base, q.desc, head as u16, q.num) {
        Some(chain) => chain,
        None => {
            return None;
        },
    };
    let used_idx: u64 = match read_guest(ram, base, q.used, 2, 2) {
        Some(used_idx) => used_idx,
        None => {
            return None;
        },
    };
    proof {
        crate::bytes::lemma_le_value_bound(guest_bytes(ram@, base, q.used + 2, 2));
    }
    let used_slot: u64 = used_idx % q.num as u64;
    let used_entry: u64 = match q.used.checked_add(4 + used_slot * 8) {
        Some(used_entry) => used_entry,
        None => {
            return None;
        },
    };
    if checked_ram_range(ram.len(), base, used_entry, 8).is_none() {
        return None;
    }
    Some(
        NextWork {
            head: head as u16,
            chain,
            used_index_addr: q.used + 2,
            used_entry,
            used_idx: used_idx as u16,
        },
    )
}

/// Publish one used-ring entry.
fn publish(
    ram: &mut [u8],
    base: u64,
    used_entry: u64,
    head: u16,
    written: u32,
    used_index_addr: u64,
    used_idx: u16,
    jit: &mut JitPageState,
)
    requires
        old(jit).wf(),
        in_ram(old(ram)@.len(), base, used_entry as int, 8),
    ensures
        final(jit).wf(),
        memory(final(ram)@, *final(jit)) == published(
            memory(old(ram)@, *old(jit)),
            base,
            used_entry,
            head,
            written,
            used_index_addr,
            used_idx,
        ),
{
    proof {
        assert(ram@.len() == ram.len());
    }
    write_guest(ram, base, used_entry, head as u64, 4, jit);
    match used_entry.checked_add(4) {
        Some(addr) => write_guest(ram, base, addr, written as u64, 4, jit),
        None => {},
    }
    write_guest(ram, base, used_index_addr, used_idx.wrapping_add(1) as u64, 2, jit);
}

impl VirtioDev {
    /// Service one descriptor chain; returns bytes written to guest buffers,
    /// or None if the request can't be serviced yet.
    fn service(
        &mut self,
        qi: usize,
        chain: &[Descriptor],
        ram: &mut [u8],
        ram_base: u64,
        jit: &mut JitPageState,
    ) -> (written: Option<u32>)
        requires
            old(self).wf(),
            old(jit).wf(),
            chain@.len() <= 256,
        ensures
            final(self).wf(),
            final(jit).wf(),
            ({
                let s = serviced(
                    old(self)@.backend,
                    memory(old(ram)@, *old(jit)),
                    old(self)@.next_id,
                    ram_base,
                    qi as int,
                    chain@,
                );
                &&& final(self)@ == (DeviceView {
                    backend: s.backend,
                    next_id: s.next_id,
                    ..old(self)@
                })
                &&& memory(final(ram)@, *final(jit)) == s.mem
                &&& written == s.written
            }),
    {
        proof {
            lemma_serviced_wf(
                self@.backend,
                memory(ram@, *jit),
                self@.next_id,
                ram_base,
                qi as int,
                chain@,
            );
        }
        match &mut self.backend {
            Backend::Block { disk } => service_block(disk, chain, ram, ram_base, jit),
            Backend::ExternalBlock { size, pending } => service_external(
                *size,
                pending,
                &mut self.next_request_id,
                qi,
                chain,
                ram,
                ram_base,
                jit,
            ),
            Backend::Net { inbox, outbox, .. } => if qi == 0 {
                service_rx(inbox, chain, ram, ram_base, jit)
            } else {
                service_tx(outbox, chain, ram, ram_base);
                Some(0)
            },
        }
    }

    /// Take the next chain of queue `qi`, service it, and publish the answer.
    /// Returns whether the queue may offer another.
    fn take_turn(
        &mut self,
        qi: usize,
        ram: &mut [u8],
        ram_base: u64,
        jit: &mut JitPageState,
    ) -> (more: bool)
        requires
            old(self).wf(),
            old(jit).wf(),
            qi < MAX_QUEUES,
        ensures
            final(self).wf(),
            final(jit).wf(),
            final(ram)@.len() == old(ram)@.len(),
            (Turn { dev: final(self)@, mem: memory(final(ram)@, *final(jit)), more }) == turn(
                old(self)@,
                memory(old(ram)@, *old(jit)),
                ram_base,
                qi as int,
            ),
    {
        let ghost dev = self@;
        let ghost mem = memory(ram@, *jit);
        let q = self.queues[qi];
        assert(q.num <= 256) by {
            assert(self@.queues[qi as int] == q);
        }
        let work = match take_work(ram, ram_base, q) {
            Some(work) => work,
            None => {
                return false;
            },
        };
        proof {
            lemma_serviced_wf(
                dev.backend,
                mem,
                dev.next_id,
                ram_base,
                qi as int,
                work.chain@,
            );
        }
        match self.service(qi, work.chain.as_slice(), ram, ram_base, jit) {
            None => {
                // Not serviceable now: leave the descriptor for later.
                if let Backend::ExternalBlock { pending: Some(pending), .. } = &mut self.backend {
                    pending.head = work.head;
                    pending.used_index_addr = work.used_index_addr;
                    pending.used_entry = work.used_entry;
                    pending.used_idx = work.used_idx;
                }
                false
            },
            Some(written) => {
                publish(
                    ram,
                    ram_base,
                    work.used_entry,
                    work.head,
                    written,
                    work.used_index_addr,
                    work.used_idx,
                    jit,
                );
                let mut q = self.queues[qi];
                q.last_avail_idx = q.last_avail_idx.wrapping_add(1);
                self.queues[qi] = q;
                self.int_status = self.int_status | 1;
                true
            },
        }
    }

    /// Process queue `qi` (after a notify, or when input arrives).
    /// `ram`/`ram_base` give access to guest physical memory. One call services
    /// at most `u32::MAX` chains.
    pub fn process(
        &mut self,
        qi: usize,
        ram: &mut [u8],
        ram_base: u64,
        jit: &mut JitPageState,
    )
        requires
            old(self).wf(),
            old(jit).wf(),
        ensures
            final(self).wf(),
            final(jit).wf(),
            final(ram)@.len() == old(ram)@.len(),
            (final(self)@, memory(final(ram)@, *final(jit))) == notified(
                old(self)@,
                memory(old(ram)@, *old(jit)),
                ram_base,
                qi as int,
            ),
            ram_base == RAM_BASE && memory(old(ram)@, *old(jit)).is_tracked() ==> memory(
                old(ram)@,
                *old(jit),
            ).observed_in(memory(final(ram)@, *final(jit))),
    {
        proof {
            if ram_base == RAM_BASE && memory(ram@, *jit).is_tracked() {
                law_processing_is_observed(self@, memory(ram@, *jit), qi as int);
            }
        }
        if qi >= MAX_QUEUES {
            return ;
        }
        if self.queues[qi].ready == 0 {
            return ;
        }
        if self.has_pending_block_request() {
            return ;
        }
        let mut left: u32 = u32::MAX;
        let ghost end = drained(
            self@,
            memory(ram@, *jit),
            ram_base,
            qi as int,
            u32::MAX as nat,
        );
        while left > 0
            invariant_except_break
                end == drained(self@, memory(ram@, *jit), ram_base, qi as int, left as nat),
            invariant
                self.wf(),
                jit.wf(),
                qi < MAX_QUEUES,
                ram@.len() == old(ram)@.len(),
            ensures
                end == (self@, memory(ram@, *jit)),
            decreases left,
        {
            if !self.take_turn(qi, ram, ram_base, jit) {
                break ;
            }
            left = left - 1;
        }
    }

    /// Complete a native disk operation and publish its guest descriptor.
    /// `data` is required only for reads; writes and flushes use an empty body.
    pub fn complete_block_request(
        &mut self,
        id: u64,
        data: &[u8],
        ok: bool,
        ram: &mut [u8],
        ram_base: u64,
        jit: &mut JitPageState,
    ) -> (completed: bool)
        requires
            old(self).wf(),
            old(jit).wf(),
        ensures
            final(self).wf(),
            final(jit).wf(),
            final(ram)@.len() == old(ram)@.len(),
            match answerable(old(self)@, old(ram)@.len(), ram_base, id) {
                None => {
                    &&& !completed
                    &&& final(self)@ == old(self)@
                    &&& memory(final(ram)@, *final(jit)) == memory(old(ram)@, *old(jit))
                },
                Some(request) => {
                    &&& completed
                    &&& final(self)@ == released(old(self)@, request)
                    &&& memory(final(ram)@, *final(jit)) == answered(
                        memory(old(ram)@, *old(jit)),
                        ram_base,
                        request,
                        data@,
                        ok,
                    )
                },
            },
            ram_base == RAM_BASE && memory(old(ram)@, *old(jit)).is_tracked() ==> memory(
                old(ram)@,
                *old(jit),
            ).observed_in(memory(final(ram)@, *final(jit))),
    {
        let request = match self.pending_block_request() {
            Some(request) => request,
            None => {
                return false;
            },
        };
        proof {
            if ram_base == RAM_BASE && memory(ram@, *jit).is_tracked() {
                law_answers_are_observed(memory(ram@, *jit), request@, data@, ok);
            }
        }
        if request.id != id {
            return false;
        }
        // A completion is one commit. Validate every destination before the
        // first guest write so an invalid scatter list cannot produce a
        // partially updated read buffer.
        let reading = match request.kind {
            BlockRequestKind::Read => true,
            _ => false,
        };
        if reading {
            let mut i: usize = 0;
            while i < request.read_buffers.len()
                invariant
                    i <= request.read_buffers@.len(),
                    self@ == old(self)@,
                    self.wf(),
                    jit.wf(),
                    ram@ == old(ram)@,
                    *jit == *old(jit),
                    request.kind is Read,
                    self@.backend matches BackendView::ExternalBlock { size, pending }
                        && pending == Some(request@),
                    forall|k: int|
                        0 <= k < i ==> in_ram(
                            ram@.len(),
                            ram_base,
                            (#[trigger] request.read_buffers@[k]).0 as int,
                            request.read_buffers@[k].1 as int,
                        ),
                decreases request.read_buffers@.len() - i,
            {
                let (addr, len) = request.read_buffers[i];
                if checked_ram_range(ram.len(), ram_base, addr, len as usize).is_none() {
                    proof {
                        assert(!in_ram(
                            ram@.len(),
                            ram_base,
                            request@.read_buffers[i as int].0 as int,
                            request@.read_buffers[i as int].1 as int,
                        ));
                    }
                    return false;
                }
                i = i + 1;
            }
        }
        if checked_ram_range(ram.len(), ram_base, request.status_addr, 1).is_none()
            || checked_ram_range(ram.len(), ram_base, request.used_entry, 8).is_none()
            || checked_ram_range(ram.len(), ram_base, request.used_index_addr, 2).is_none() {
            return false;
        }
        let carried = ok && (if reading {
            data.len() as u64 == request.length
        } else {
            data.len() == 0
        });
        let ghost mem = memory(ram@, *jit);
        proof {
            lemma_read_filled_len(
                mem,
                ram_base,
                request@,
                data@,
                request.read_buffers@.len() as int,
            );
        }
        if carried && reading {
            let mut copied: usize = 0;
            let mut i: usize = 0;
            while i < request.read_buffers.len()
                invariant
                    i <= request.read_buffers@.len(),
                    self@ == old(self)@,
                    self.wf(),
                    jit.wf(),
                    request@.wf(),
                    request.kind is Read,
                    data@.len() == request.length,
                    data.len() == request.length,
                    copied == buffered(request@.read_buffers, i as int),
                    memory(ram@, *jit) == read_filled(
                        mem,
                        ram_base,
                        request@,
                        data@,
                        i as int,
                    ),
                decreases request.read_buffers@.len() - i,
            {
                let (addr, len) = request.read_buffers[i];
                proof {
                    lemma_buffered_grows(
                        request.read_buffers@,
                        i as int + 1,
                        request.read_buffers@.len() as int,
                    );
                    lemma_buffered_grows(request.read_buffers@, i as int, i as int + 1);
                }
                let end: usize = copied + len as usize;
                let piece: Vec<u8> = copy_range(data, copied, end);
                guest_write(ram, ram_base, addr, piece.as_slice(), jit);
                copied = end;
                i = i + 1;
            }
        }
        let status: [u8; 1] = [
            if carried {
                0
            } else {
                1
            },
        ];
        assert(status@ =~= seq![if carried { 0u8 } else { 1u8 }]);
        guest_write(ram, ram_base, request.status_addr, &status, jit);
        let written: u32 = if carried && reading {
            request.length as u32 + 1
        } else {
            1
        };
        publish(
            ram,
            ram_base,
            request.used_entry,
            request.head,
            written,
            request.used_index_addr,
            request.used_idx,
            jit,
        );
        if let Backend::ExternalBlock { pending, .. } = &mut self.backend {
            *pending = None;
        }
        let mut q = self.queues[request.queue_index];
        q.last_avail_idx = q.last_avail_idx.wrapping_add(1);
        self.queues[request.queue_index] = q;
        self.int_status = self.int_status | 1;
        true
    }
}

// ---- laws ----------------------------------------------------------------

/// Whether byte `i` of RAM is one that a completion of `request` publishes: its
/// status byte, its used-ring entry or the used index.
pub open spec fn published_byte(base: u64, request: PendingView, i: int) -> bool {
    ||| i == request.status_addr - base
    ||| request.used_entry - base <= i < request.used_entry - base + 8
    ||| request.used_index_addr - base <= i < request.used_index_addr - base + 2
}

/// An answer that does not carry out its request leaves guest memory as it was
/// but for the bytes that every completion publishes.
pub proof fn law_failed_answer_keeps_guest_data(
    mem: Memory,
    base: u64,
    request: PendingView,
    data: Seq<u8>,
    ok: bool,
    i: int,
)
    requires
        !answer_carries(request, data, ok),
        0 <= i < mem.ram.len(),
        !published_byte(base, request, i),
    ensures
        answered(mem, base, request, data, ok).ram[i] == mem.ram[i],
{
    crate::bytes::lemma_le_bytes_len(request.head as nat, 4);
    crate::bytes::lemma_le_bytes_len(1, 4);
    crate::bytes::lemma_le_bytes_len(
        vstd::wrapping::u16_specs::wrapping_add(request.used_idx, 1) as nat,
        2,
    );
}

/// A read that the host carries out puts the host's bytes into the guest's
/// buffers: buffer `b` holds its part of the data, if nothing else that the
/// completion writes overlaps it.
pub proof fn law_read_commits_exact_host_data(
    mem: Memory,
    base: u64,
    request: PendingView,
    data: Seq<u8>,
    b: int,
)
    requires
        request.wf(),
        request.kind is Read,
        answer_carries(request, data, true),
        targets_mapped(mem.ram.len(), base, request),
        0 <= b < request.read_buffers.len(),
        forall|k: int, i: int|
            #![trigger in_buffer(base, request, k, i), in_buffer(base, request, b, i)]
            0 <= k < request.read_buffers.len() && in_buffer(base, request, k, i) && in_buffer(
                base,
                request,
                b,
                i,
            ) ==> k == b,
        forall|i: int|
            in_buffer(base, request, b, i) ==> !(#[trigger] published_byte(base, request, i)),
    ensures
        guest_bytes(
            answered(mem, base, request, data, true).ram,
            base,
            request.read_buffers[b].0 as int,
            request.read_buffers[b].1 as int,
        ) == data.subrange(
            buffered(request.read_buffers, b),
            buffered(request.read_buffers, b + 1),
        ),
{
    let n = request.read_buffers.len() as int;
    let (addr, len) = request.read_buffers[b];
    lemma_read_filled_len(mem, base, request, data, n);
    lemma_filled_buffer(mem, base, request, data, b, n);
    lemma_buffered_grows(request.read_buffers, b + 1, n);
    lemma_buffered_grows(request.read_buffers, 0, b);
    let filled = read_filled(mem, base, request, data, n);
    let end = answered(mem, base, request, data, true);
    crate::bytes::lemma_le_bytes_len(request.head as nat, 4);
    crate::bytes::lemma_le_bytes_len((request.length + 1) as u32 as nat, 4);
    crate::bytes::lemma_le_bytes_len(
        vstd::wrapping::u16_specs::wrapping_add(request.used_idx, 1) as nat,
        2,
    );
    let part = data.subrange(
        buffered(request.read_buffers, b),
        buffered(request.read_buffers, b + 1),
    );
    let got = guest_bytes(end.ram, base, addr as int, len as int);
    assert(got.len() == part.len());
    assert forall|j: int| 0 <= j < len implies got[j] == part[j] by {
        let i = addr - base + j;
        assert(in_buffer(base, request, b, i));
        assert(!published_byte(base, request, i));
        assert(end.ram[i] == filled.ram[i]);
    }
    assert(got =~= part);
}

/// Whether byte `i` of RAM belongs to read buffer `k` of `request`.
pub open spec fn in_buffer(base: u64, request: PendingView, k: int, i: int) -> bool {
    request.read_buffers[k].0 - base <= i < request.read_buffers[k].0 - base
        + request.read_buffers[k].1
}

proof fn lemma_filled_buffer(
    mem: Memory,
    base: u64,
    request: PendingView,
    data: Seq<u8>,
    b: int,
    n: int,
)
    requires
        request.wf(),
        request.kind is Read,
        data.len() == request.length,
        targets_mapped(mem.ram.len(), base, request),
        0 <= b < n <= request.read_buffers.len(),
        forall|k: int, i: int|
            #![trigger in_buffer(base, request, k, i), in_buffer(base, request, b, i)]
            0 <= k < request.read_buffers.len() && in_buffer(base, request, k, i) && in_buffer(
                base,
                request,
                b,
                i,
            ) ==> k == b,
    ensures
        forall|j: int|
            0 <= j < request.read_buffers[b].1 ==> #[trigger] read_filled(
                mem,
                base,
                request,
                data,
                n,
            ).ram[request.read_buffers[b].0 - base + j] == data[buffered(request.read_buffers, b)
                + j],
    decreases n,
{
    lemma_buffered_grows(request.read_buffers, n, request.read_buffers.len() as int);
    lemma_buffered_grows(request.read_buffers, 0, n - 1);
    lemma_read_filled_len(mem, base, request, data, n - 1);
    let before = read_filled(mem, base, request, data, n - 1);
    let after = read_filled(mem, base, request, data, n);
    let (addr, len) = request.read_buffers[n - 1];
    let start = request.read_buffers[b].0 - base;
    assert(in_ram(
        mem.ram.len(),
        base,
        request.read_buffers[n - 1].0 as int,
        request.read_buffers[n - 1].1 as int,
    ));
    assert(in_ram(
        mem.ram.len(),
        base,
        request.read_buffers[b].0 as int,
        request.read_buffers[b].1 as int,
    ));
    if b < n - 1 {
        lemma_filled_buffer(mem, base, request, data, b, n - 1);
        assert forall|j: int| 0 <= j < request.read_buffers[b].1 implies #[trigger] after.ram[start
            + j] == data[buffered(request.read_buffers, b) + j] by {
            assert(in_buffer(base, request, b, start + j));
            if in_buffer(base, request, n - 1, start + j) {
                assert(false);
            }
            assert(after.ram[start + j] == before.ram[start + j]);
        }
    }
}

/// A completion publishes once: when it has, no completion of that device
/// answers anything until the guest asks again.
pub proof fn law_completion_publishes_once(
    dev: DeviceView,
    request: PendingView,
    ram_len: nat,
    base: u64,
    id: u64,
)
    ensures
        answerable(released(dev, request), ram_len, base, id) is None,
{
}

/// A notify while the device waits for the host changes nothing.
pub proof fn law_notify_preserves_pending(dev: DeviceView, mem: Memory, base: u64, qi: int)
    requires
        dev.backend.awaits_host(),
    ensures
        notified(dev, mem, base, qi) == (dev, mem),
{
}

/// A reset cancels the pending host request, lowers the interrupt line, and
/// leaves no queue ready.
pub proof fn law_reset_cancels(dev: DeviceView, ram_len: nat, base: u64, id: u64)
    ensures
        ({
            let reset = dev.register_written(0x070, 0);
            &&& !reset.backend.awaits_host()
            &&& answerable(reset, ram_len, base, id) is None
            &&& reset.int_status == 0
            &&& reset.queues == seq![empty_queue(), empty_queue()]
        }),
{
}

proof fn lemma_serviced_bounded(
    backend: BackendView,
    mem: Memory,
    next_id: u64,
    base: u64,
    qi: int,
    chain: Seq<Descriptor>,
)
    requires
        backend.bounded(),
    ensures
        serviced(backend, mem, next_id, base, qi, chain).backend.bounded(),
{
    if let BackendView::Net { mac, inbox, outbox } = backend {
        let after = serviced(backend, mem, next_id, base, qi, chain).backend;
        if let BackendView::Net { mac: m, inbox: i2, outbox: o2 } = after {
            assert forall|i: int| 0 <= i < i2.len() implies #[trigger] i2[i].len()
                <= NET_MAX_FRAME by {
                if qi == 0 && inbox.len() > 0 {
                    assert(i2[i] == inbox[i + 1]);
                } else {
                    assert(i2[i] == inbox[i]);
                }
            }
            assert forall|i: int| 0 <= i < o2.len() implies #[trigger] o2[i].len()
                <= NET_MAX_FRAME by {
                if i < outbox.len() {
                    assert(o2[i] == outbox[i]);
                }
            }
        }
    }
}

/// Mailboxes are bounded: whatever the guest posts, processing a queue leaves
/// both mailboxes within their limit and no over-long frame in them.
pub proof fn law_mailboxes_stay_bounded(
    dev: DeviceView,
    mem: Memory,
    base: u64,
    qi: int,
    fuel: nat,
)
    requires
        dev.backend.bounded(),
    ensures
        drained(dev, mem, base, qi, fuel).0.backend.bounded(),
    decreases fuel,
{
    if fuel > 0 {
        let q = dev.queues[qi];
        if let Some(work) = next_work(mem.ram, base, q) {
            lemma_serviced_bounded(dev.backend, mem, dev.next_id, base, qi, work.chain);
        }
        let t = turn(dev, mem, base, qi);
        assert(t.dev.backend.bounded());
        if t.more {
            law_mailboxes_stay_bounded(t.dev, t.mem, base, qi, (fuel - 1) as nat);
        }
    }
}

/// A queue that has come to rest stays there: allowing it more turns changes
/// nothing.
pub proof fn law_rest_is_final(
    dev: DeviceView,
    mem: Memory,
    base: u64,
    qi: int,
    fuel: nat,
    more: nat,
)
    requires
        fuel <= more,
        comes_to_rest(dev, mem, base, qi, fuel),
    ensures
        drained(dev, mem, base, qi, more) == drained(dev, mem, base, qi, fuel),
    decreases fuel,
{
    if fuel > 0 {
        let t = turn(dev, mem, base, qi);
        if t.more {
            law_rest_is_final(t.dev, t.mem, base, qi, (fuel - 1) as nat, (more - 1) as nat);
        }
    }
}

/// Whether queue `qi` comes to rest within `fuel` turns.
pub open spec fn comes_to_rest(dev: DeviceView, mem: Memory, base: u64, qi: int, fuel: nat) -> bool
    decreases fuel,
{
    let t = turn(dev, mem, base, qi);
    fuel > 0 && (t.more ==> comes_to_rest(t.dev, t.mem, base, qi, (fuel - 1) as nat))
}

/// Every request that a device hands to the host is one that its disk can carry
/// out: it moves at most 65536 bytes, none if and only if it is a flush; a write
/// brings as many bytes as it moves, and nothing else brings any; and what is
/// moved lies inside the disk and begins at a sector.
pub proof fn law_accepted_requests_suit_the_disk(dev: DeviceView, size: u64, request: PendingView)
    requires
        dev.wf(),
        dev.backend == (BackendView::ExternalBlock { size, pending: Some(request) }),
    ensures
        request.length <= 65536,
        request.length == 0 <==> request.kind is Flush,
        request.kind is Write ==> request.data.len() == request.length,
        !(request.kind is Write) ==> request.data.len() == 0,
        !(request.kind is Flush) ==> request.offset % 512 == 0 && request.offset + request.length
            <= size,
{
}

/// Host requests are numbered in the order in which they are made: one that a
/// turn makes has the device's next number, and the number after it is next.
pub proof fn law_requests_are_numbered(dev: DeviceView, mem: Memory, base: u64, qi: int)
    requires
        !dev.backend.awaits_host(),
        turn(dev, mem, base, qi).dev.backend.awaits_host(),
    ensures
        turn(dev, mem, base, qi).dev.backend->ExternalBlock_pending->0.id == dev.next_id,
        turn(dev, mem, base, qi).dev.next_id == vstd::wrapping::u64_specs::wrapping_add(
            dev.next_id,
            1,
        ),
{
}

} // verus!
