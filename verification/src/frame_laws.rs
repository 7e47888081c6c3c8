//! What holds of the network device and of the rings: frames pass whole and
//! unchanged in both directions, and chains are what the guest's table says.

use vstd::prelude::*;
use crate::bytes::le_value;
use crate::dma::Memory;
use crate::virtio::{
    chain_at, collected, high_set, low_set, net_serviced, next_work, room_in, scattered,
    BackendView, Descriptor, DeviceView, Queue,
};

verus! {

/// Bytes in those of the first `k` buffers of `chain` that the device may read,
/// or of those that it may write.
pub open spec fn buffers_before(chain: Seq<Descriptor>, writable: bool, k: int) -> int
    decreases k,
{
    if k <= 0 {
        0
    } else {
        buffers_before(chain, writable, k - 1) + if chain[k - 1].writable == writable {
            chain[k - 1].len as int
        } else {
            0
        }
    }
}

/// Whether every buffer that the device may read, or may write, lies in RAM.
pub open spec fn buffers_mapped(
    len: nat,
    base: u64,
    chain: Seq<Descriptor>,
    writable: bool,
) -> bool {
    forall|k: int|
        0 <= k < chain.len() && (#[trigger] chain[k]).writable == writable ==> base
            <= chain[k].addr && chain[k].addr - base + chain[k].len <= len
}

proof fn lemma_before_grows(chain: Seq<Descriptor>, writable: bool, m: int, k: int)
    requires
        0 <= m <= k <= chain.len(),
    ensures
        0 <= buffers_before(chain, writable, m) <= buffers_before(chain, writable, k),
    decreases k,
{
    if k > 0 {
        if m < k {
            lemma_before_grows(chain, writable, m, k - 1);
        } else {
            lemma_before_grows(chain, writable, m - 1, k - 1);
        }
    }
}

proof fn lemma_collected(ram: Seq<u8>, base: u64, chain: Seq<Descriptor>, n: int)
    requires
        0 <= n <= chain.len(),
        buffers_mapped(ram.len(), base, chain, false),
    ensures
        collected(ram, base, chain, n) is Some,
        collected(ram, base, chain, n)->0.len() == buffers_before(chain, false, n),
    decreases n,
{
    if n > 0 {
        lemma_collected(ram, base, chain, n - 1);
        assert(!chain[n - 1].writable ==> base <= chain[n - 1].addr);
    }
}

proof fn lemma_collected_byte(
    ram: Seq<u8>,
    base: u64,
    chain: Seq<Descriptor>,
    n: int,
    k: int,
    j: int,
)
    requires
        0 <= k < n <= chain.len(),
        buffers_mapped(ram.len(), base, chain, false),
        !chain[k].writable,
        0 <= j < chain[k].len,
    ensures
        collected(ram, base, chain, n)->0[buffers_before(chain, false, k) + j]
            == ram[chain[k].addr - base + j],
        0 <= buffers_before(chain, false, k),
        buffers_before(chain, false, k) + j < buffers_before(chain, false, n),
    decreases n,
{
    lemma_collected(ram, base, chain, n);
    lemma_collected(ram, base, chain, n - 1);
    lemma_before_grows(chain, false, k + 1, n);
    lemma_before_grows(chain, false, 0, k);
    assert(!chain[n - 1].writable ==> base <= chain[n - 1].addr);
    if k < n - 1 {
        lemma_collected_byte(ram, base, chain, n - 1, k, j);
    }
}

/// A frame that the guest sends reaches the host as it is: what the host collects
/// last has all bytes of the guest's buffers behind the first twelve, which are
/// the header, in order. Memory is not touched, and nothing is received.
pub proof fn law_sent_frame_is_whole(
    mac: Seq<u8>,
    inbox: Seq<Seq<u8>>,
    outbox: Seq<Seq<u8>>,
    mem: Memory,
    next_id: u64,
    base: u64,
    chain: Seq<Descriptor>,
    k: int,
    j: int,
)
    requires
        buffers_mapped(mem.ram.len(), base, chain, false),
        12 < buffers_before(chain, false, chain.len() as int) <= 12 + 1600,
        outbox.len() < 256,
        0 <= k < chain.len(),
        !chain[k].writable,
        0 <= j < chain[k].len,
    ensures
        ({
            let s = net_serviced(mac, inbox, outbox, mem, next_id, base, 1, chain);
            let p = buffers_before(chain, false, k) + j;
            &&& s.mem == mem
            &&& s.written == Some(0u32)
            &&& (s.backend matches BackendView::Net { mac: m, inbox: i, outbox: o } && {
                &&& m == mac
                &&& i == inbox
                &&& o.len() == outbox.len() + 1
                &&& o.drop_last() == outbox
                &&& o.last().len() == buffers_before(chain, false, chain.len() as int) - 12
                &&& p >= 12 ==> o.last()[p - 12] == mem.ram[chain[k].addr - base + j]
            })
        }),
{
    let n = chain.len() as int;
    lemma_collected(mem.ram, base, chain, n);
    lemma_collected_byte(mem.ram, base, chain, n, k, j);
    let s = net_serviced(mac, inbox, outbox, mem, next_id, base, 1, chain);
    assert(s.backend->outbox.drop_last() =~= outbox);
}

/// A chain that holds no frame that may be moved, or for which there is no room,
/// sends nothing.
pub proof fn law_no_frame_is_made_up(
    mac: Seq<u8>,
    inbox: Seq<Seq<u8>>,
    outbox: Seq<Seq<u8>>,
    mem: Memory,
    next_id: u64,
    base: u64,
    chain: Seq<Descriptor>,
)
    requires
        buffers_mapped(mem.ram.len(), base, chain, false),
        !(12 < buffers_before(chain, false, chain.len() as int) <= 12 + 1600) || outbox.len()
            >= 256,
    ensures
        net_serviced(mac, inbox, outbox, mem, next_id, base, 1, chain).backend == (
        BackendView::Net { mac, inbox, outbox }),
{
    lemma_collected(mem.ram, base, chain, chain.len() as int);
}

proof fn lemma_room(chain: Seq<Descriptor>, n: int)
    requires
        0 <= n <= chain.len(),
    ensures
        room_in(chain, n) == buffers_before(chain, true, n),
    decreases n,
{
    if n > 0 {
        lemma_room(chain, n - 1);
    }
}

proof fn lemma_scattered(mem: Memory, base: u64, src: Seq<u8>, chain: Seq<Descriptor>, n: int)
    requires
        0 <= n <= chain.len(),
        buffers_mapped(mem.ram.len(), base, chain, true),
    ensures
        ({
            let s = scattered(mem, base, src, chain, n);
            &&& s.mem.ram.len() == mem.ram.len()
            &&& !s.stopped
            &&& s.written == if buffers_before(chain, true, n) <= src.len() {
                buffers_before(chain, true, n)
            } else {
                src.len() as int
            }
        }),
    decreases n,
{
    if n > 0 {
        lemma_scattered(mem, base, src, chain, n - 1);
        lemma_before_grows(chain, true, 0, n - 1);
        assert(chain[n - 1].writable ==> base <= chain[n - 1].addr);
    }
}

proof fn lemma_scattered_byte(
    mem: Memory,
    base: u64,
    src: Seq<u8>,
    chain: Seq<Descriptor>,
    n: int,
    k: int,
    j: int,
)
    requires
        0 <= k < n <= chain.len(),
        buffers_mapped(mem.ram.len(), base, chain, true),
        chain[k].writable,
        0 <= j < chain[k].len,
        buffers_before(chain, true, k) + j < src.len(),
        forall|l: int|
            k < l < chain.len() && chain[l].writable ==> !(chain[l].addr <= chain[k].addr + j < (
            #[trigger] chain[l]).addr + chain[l].len),
    ensures
        scattered(mem, base, src, chain, n).mem.ram[chain[k].addr - base + j]
            == src[buffers_before(chain, true, k) + j],
        0 <= buffers_before(chain, true, k),
    decreases n,
{
    lemma_scattered(mem, base, src, chain, n);
    lemma_scattered(mem, base, src, chain, n - 1);
    lemma_before_grows(chain, true, 0, k);
    lemma_before_grows(chain, true, 0, n - 1);
    assert(base <= chain[k].addr && chain[k].addr - base + chain[k].len <= mem.ram.len());
    assert(chain[n - 1].writable ==> base <= chain[n - 1].addr);
    if k < n - 1 {
        lemma_scattered_byte(mem, base, src, chain, n - 1, k, j);
        assert(chain[n - 1].writable ==> !(chain[n - 1].addr <= chain[k].addr + j < chain[n
            - 1].addr + chain[n - 1].len));
    }
}

/// A frame that the host sent reaches the guest as it is: the guest's buffers
/// hold a header of twelve bytes, ten of them zero and the last two the number
/// one, and behind it the oldest frame that waits, in order. The guest is told
/// how many bytes there are, and the frame waits no longer.
pub proof fn law_received_frame_is_whole(
    mac: Seq<u8>,
    inbox: Seq<Seq<u8>>,
    outbox: Seq<Seq<u8>>,
    mem: Memory,
    next_id: u64,
    base: u64,
    chain: Seq<Descriptor>,
    k: int,
    j: int,
)
    requires
        inbox.len() > 0,
        buffers_mapped(mem.ram.len(), base, chain, true),
        inbox[0].len() + 12 <= buffers_before(chain, true, chain.len() as int),
        inbox[0].len() + 12 <= u32::MAX,
        0 <= k < chain.len(),
        chain[k].writable,
        0 <= j < chain[k].len,
        buffers_before(chain, true, k) + j < inbox[0].len() + 12,
        forall|l: int|
            k < l < chain.len() && chain[l].writable ==> !(chain[l].addr <= chain[k].addr + j < (
            #[trigger] chain[l]).addr + chain[l].len),
    ensures
        ({
            let s = net_serviced(mac, inbox, outbox, mem, next_id, base, 0, chain);
            let p = buffers_before(chain, true, k) + j;
            &&& s.backend == (BackendView::Net { mac, inbox: inbox.drop_first(), outbox })
            &&& s.written == Some((inbox[0].len() + 12) as u32)
            &&& s.mem.ram.len() == mem.ram.len()
            &&& s.mem.ram[chain[k].addr - base + j] == if p >= 12 {
                inbox[0][p - 12]
            } else if p == 10 {
                1u8
            } else {
                0u8
            }
        }),
{
    let n = chain.len() as int;
    let src = crate::virtio::rx_header() + inbox[0];
    lemma_room(chain, n);
    lemma_scattered(mem, base, src, chain, n);
    lemma_scattered_byte(mem, base, src, chain, n, k, j);
}

/// A frame for which the guest's buffers have no room is dropped, without a byte
/// of it or of the ones behind it reaching memory; without a frame, nothing
/// happens.
pub proof fn law_frame_without_room_is_dropped(
    mac: Seq<u8>,
    inbox: Seq<Seq<u8>>,
    outbox: Seq<Seq<u8>>,
    mem: Memory,
    next_id: u64,
    base: u64,
    chain: Seq<Descriptor>,
)
    ensures
        ({
            let s = net_serviced(mac, inbox, outbox, mem, next_id, base, 0, chain);
            &&& inbox.len() == 0 ==> s.mem == mem && s.written is None && s.backend == (
            BackendView::Net { mac, inbox, outbox })
            &&& inbox.len() > 0 && inbox[0].len() + 12 > buffers_before(
                chain,
                true,
                chain.len() as int,
            ) ==> s.mem == mem && s.written is None && s.backend == (BackendView::Net {
                mac,
                inbox: inbox.drop_first(),
                outbox,
            })
        }),
{
    lemma_room(chain, chain.len() as int);
}

/// Frames that the host sends wait in the order in which they came, at most 256
/// of them and none above 1600 bytes.
pub proof fn law_frames_wait_in_order(dev: DeviceView, frame: Seq<u8>)
    requires
        dev.backend is Net,
    ensures
        ({
            let waiting = dev.backend->inbox;
            let now = dev.with_input(frame).backend->inbox;
            &&& dev.with_input(frame).backend is Net
            &&& dev.with_input(frame).backend->outbox == dev.backend->outbox
            &&& waiting.len() < 256 && frame.len() <= 1600 ==> now.len() == waiting.len() + 1
                && now.last() == frame && now.drop_last() == waiting
            &&& waiting.len() >= 256 || frame.len() > 1600 ==> now == waiting
        }),
{
    assert(dev.backend->inbox.push(frame).drop_last() =~= dev.backend->inbox);
}

// ---- rings ---------------------------------------------------------------

/// The little-endian number in `n` bytes of RAM at `addr`.
pub open spec fn number_at(ram: Seq<u8>, base: u64, addr: int, n: int) -> nat {
    le_value(ram.subrange(addr - base, addr - base + n))
}

/// A chain is what the guest's table says: each of its descriptors is an entry of
/// sixteen bytes with an address, a length and flags, of which the second says
/// that the device may write, and the first that another entry follows, whose
/// number stands behind them. A chain that goes on is its first descriptor and
/// the chain from the next entry.
pub proof fn law_chain_is_what_the_table_says(
    ram: Seq<u8>,
    base: u64,
    desc: u64,
    di: nat,
    limit: nat,
)
    requires
        limit > 0,
        base <= desc,
        desc + di * 16 <= u64::MAX - 16,
        desc - base + di * 16 + 16 <= ram.len(),
    ensures
        ({
            let entry = desc + di * 16;
            let chain = chain_at(ram, base, desc, di, limit);
            let flags = number_at(ram, base, entry + 12, 2);
            let rest = chain_at(
                ram,
                base,
                desc,
                number_at(ram, base, entry + 14, 2),
                (limit - 1) as nat,
            );
            &&& chain matches Some(c) ==> {
                &&& c.len() >= 1
                &&& c[0].addr == number_at(ram, base, entry, 8)
                &&& c[0].len == number_at(ram, base, entry + 8, 4)
                &&& c[0].writable == (flags / 2 % 2 == 1)
                &&& flags % 2 == 0 ==> c.len() == 1
                &&& flags % 2 == 1 ==> rest == Some(c.drop_first())
            }
            &&& flags % 2 == 0 ==> chain is Some
            &&& flags % 2 == 1 ==> (chain is Some <==> rest is Some)
        }),
{
    let entry = desc + di * 16;
    crate::bytes::lemma_byte_spans();
    crate::bytes::lemma_le_value_bound(ram.subrange(entry - base, entry - base + 8));
    crate::bytes::lemma_le_value_bound(ram.subrange(entry + 8 - base, entry + 8 - base + 4));
    let chain = chain_at(ram, base, desc, di, limit);
    let rest = chain_at(
        ram,
        base,
        desc,
        number_at(ram, base, entry + 14, 2),
        (limit - 1) as nat,
    );
    if number_at(ram, base, entry + 12, 2) % 2 == 1 && rest is Some {
        assert(chain->0.drop_first() =~= rest->0);
    }
}

/// The next chain is the one whose head stands in the available ring at the index
/// that the device has come to, modulo the size of the ring, and there is one
/// exactly while the guest's index is another. Its answer goes to the entry of
/// the used ring at the used index.
pub proof fn law_next_chain_is_the_next_available(ram: Seq<u8>, base: u64, q: Queue)
    requires
        q.num > 0,
        base <= q.avail,
        base <= q.used,
        q.avail - base + 4 + q.num * 2 <= ram.len(),
        q.used - base + 4 + q.num * 8 <= ram.len(),
        q.avail + 4 + q.num * 2 <= u64::MAX,
        q.used + 4 + q.num * 8 <= u64::MAX,
    ensures
        ({
            let index = number_at(ram, base, q.avail + 2, 2);
            let used = number_at(ram, base, q.used + 2, 2);
            let slot = q.last_avail_idx as int % q.num as int;
            let head = number_at(ram, base, q.avail + 4 + slot * 2, 2);
            let chain = chain_at(ram, base, q.desc, head, q.num as nat);
            &&& next_work(ram, base, q) is Some <==> index != q.last_avail_idx && chain is Some
            &&& next_work(ram, base, q) matches Some(work) ==> {
                &&& work.head == head
                &&& Some(work.chain) == chain
                &&& work.used_idx == used
                &&& work.used_index_addr == q.used + 2
                &&& work.used_entry == q.used + 4 + used as int % q.num as int * 8
            }
        }),
{
    let num = q.num as int;
    let slot = q.last_avail_idx as int % num;
    let used = number_at(ram, base, q.used + 2, 2);
    vstd::arithmetic::div_mod::lemma_mod_bound(q.last_avail_idx as int, num);
    vstd::arithmetic::div_mod::lemma_mod_bound(used as int, num);
    crate::bytes::lemma_byte_spans();
    crate::bytes::lemma_le_value_bound(ram.subrange(q.used + 2 - base, q.used + 2 - base + 2));
    crate::bytes::lemma_le_value_bound(
        ram.subrange(q.avail + 4 + slot * 2 - base, q.avail + 4 + slot * 2 - base + 2),
    );
}

/// What a driver finds: the device's magic number and version, its kind, and for
/// a disk how many sectors it has.
pub proof fn law_driver_finds_the_device(dev: DeviceView)
    requires
        dev.wf(),
    ensures
        dev.register(0, 4) == 0x7472_6976,
        dev.register(4, 4) == 2,
        dev.register(8, 4) == if dev.backend is Net {
            1nat
        } else {
            2
        },
        dev.backend matches BackendView::Block { disk } ==> (disk.len() / 512
            < 0x1_0000_0000_0000_0000 ==> dev.register(0x100, 8) == disk.len() / 512),
        dev.backend matches BackendView::ExternalBlock { size, pending } ==> dev.register(0x100, 8)
            == size / 512,
        dev.backend matches BackendView::Net { mac, inbox, outbox } ==> forall|i: int|
            0 <= i < 6 ==> #[trigger] dev.config(i) == mac[i],
{
    crate::bytes::lemma_byte_spans();
    let bytes = Seq::new(8, |i: int| dev.config(0x100 - 0x100 + i));
    match dev.backend {
        BackendView::Block { disk } => {
            let v = (disk.len() / 512) as nat;
            crate::bytes::lemma_le_bytes_len(v, 8);
            assert(bytes =~= crate::bytes::le_bytes(v, 8));
            if v < 0x1_0000_0000_0000_0000 {
                crate::bytes::lemma_le_round_trip(v, 8);
            }
        },
        BackendView::ExternalBlock { size, pending } => {
            let v = (size / 512) as nat;
            crate::bytes::lemma_le_bytes_len(v, 8);
            assert(bytes =~= crate::bytes::le_bytes(v, 8));
            crate::bytes::lemma_le_round_trip(v, 8);
        },
        BackendView::Net { mac, inbox, outbox } => {},
    }
}

proof fn lemma_halves(v: u64, low: u32, high: u32)
    ensures
        high_set(low_set(v, low), high) == high * 0x1_0000_0000 + low,
        low_set(high_set(v, high), low) == high * 0x1_0000_0000 + low,
{
    let a = low_set(v, low);
    assert(a == v as int / 0x1_0000_0000 * 0x1_0000_0000 + low);
    assert(a as int % 0x1_0000_0000 == low);
    let b = high_set(v, high);
    assert(b == high * 0x1_0000_0000 + v as int % 0x1_0000_0000);
    assert(b as int / 0x1_0000_0000 == high);
}

/// A driver places the parts of the queue that it selected anywhere in 64 bits,
/// one half after the other in either order; the other queue stays.
pub proof fn law_driver_places_its_queue(dev: DeviceView, low: u32, high: u32)
    requires
        dev.wf(),
    ensures
        ({
            let sel = dev.queue_sel as int;
            let addr = (high * 0x1_0000_0000 + low) as u64;
            let q = dev.queues[sel];
            let desc = dev.register_written(0x80, low).register_written(0x84, high);
            let avail = dev.register_written(0x90, low).register_written(0x94, high);
            let used = dev.register_written(0xa4, high).register_written(0xa0, low);
            &&& desc == dev.with_queue(sel, Queue { desc: addr, ..q })
            &&& avail == dev.with_queue(sel, Queue { avail: addr, ..q })
            &&& used == dev.with_queue(sel, Queue { used: addr, ..q })
            &&& desc.queues[sel].desc == addr
            &&& desc.queues[1 - sel] == dev.queues[1 - sel]
        }),
{
    let sel = dev.queue_sel as int;
    let q = dev.queues[sel];
    lemma_halves(q.desc, low, high);
    lemma_halves(q.avail, low, high);
    lemma_halves(q.used, low, high);
    let d = dev.register_written(0x80, low);
    assert(d == dev.with_queue(sel, Queue { desc: low_set(q.desc, low), ..q }));
    let a = dev.register_written(0x90, low);
    assert(a == dev.with_queue(sel, Queue { avail: low_set(q.avail, low), ..q }));
    let u = dev.register_written(0xa4, high);
    assert(u == dev.with_queue(sel, Queue { used: high_set(q.used, high), ..q }));
    let addr = (high * 0x1_0000_0000 + low) as u64;
    assert(d.register_written(0x84, high).queues =~= dev.with_queue(
        sel,
        Queue { desc: addr, ..q },
    ).queues);
    assert(a.register_written(0x94, high).queues =~= dev.with_queue(
        sel,
        Queue { avail: addr, ..q },
    ).queues);
    assert(u.register_written(0xa0, low).queues =~= dev.with_queue(
        sel,
        Queue { used: addr, ..q },
    ).queues);
}

/// A driver makes a queue as large as it asks for, but no larger than the device
/// allows, and reads back what it set: which queue is selected, whether it is
/// ready, and its status.
pub proof fn law_driver_reads_back_what_it_set(dev: DeviceView, val: u32)
    requires
        dev.wf(),
    ensures
        ({
            let sel = dev.queue_sel as int;
            let depth = dev.register(0x34, 4);
            let sized = dev.register_written(0x38, val);
            &&& sized.queues[sel].num == if val as nat <= depth {
                val as nat
            } else {
                depth
            }
            &&& sized.queues[1 - sel] == dev.queues[1 - sel]
            &&& val < 2 ==> dev.register_written(0x30, val).queue_sel == val
            &&& val < 2 ==> dev.register_written(0x44, val).register(0x44, 4) == val
            &&& val != 0 ==> dev.register_written(0x70, val).register(0x70, 4) == val
        }),
{
}

/// An interrupt that the driver acknowledges is gone, and no other is.
pub proof fn law_acknowledged_interrupt_is_gone(dev: DeviceView, val: u32)
    ensures
        dev.register_written(0x64, val).int_status & val == 0,
        dev.register_written(0x64, val).int_status | (dev.int_status & val) == dev.int_status,
{
    let x = dev.int_status;
    assert((x & !val) & val == 0) by (bit_vector);
    assert((x & !val) | (x & val) == x) by (bit_vector);
}

} // verus!
