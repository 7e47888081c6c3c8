//! What holds of the bus and the devices on it: memory reads back what was
//! stored, and interrupts reach the hart as the guest set them up.

use vstd::prelude::*;
use crate::bus::{polled, BusView};
use crate::bytes::{be_value, le_bytes, le_value};
use crate::dma::guest_value;
use crate::plic::{source_bit, PlicView};

verus! {

/// Two, four and eight bytes spell a number with the least significant first, or
/// the most significant.
pub proof fn law_bytes_spell_numbers(s: Seq<u8>)
    ensures
        s.len() == 1 ==> le_value(s) == s[0] && be_value(s) == s[0],
        s.len() == 2 ==> le_value(s) == s[0] + 0x100 * s[1] && be_value(s) == s[1] + 0x100 * s[0],
        s.len() == 4 ==> le_value(s) == s[0] + 0x100 * s[1] + 0x1_0000 * s[2] + 0x100_0000 * s[3],
        s.len() == 4 ==> be_value(s) == s[3] + 0x100 * s[2] + 0x1_0000 * s[1] + 0x100_0000 * s[0],
        s.len() == 8 ==> le_value(s) == s[0] + 0x100 * s[1] + 0x1_0000 * s[2] + 0x100_0000 * s[3]
            + 0x1_0000_0000 * s[4] + 0x100_0000_0000 * s[5] + 0x1_0000_0000_0000 * s[6]
            + 0x100_0000_0000_0000 * s[7],
{
    reveal_with_fuel(le_value, 9);
    reveal_with_fuel(be_value, 5);
}

/// A store to RAM reads back: its bytes hold the number that was stored, and
/// every other byte is as it was.
pub proof fn law_store_reads_back(bus: BusView, addr: u64, val: u64, n: nat, i: int)
    requires
        n == 1 || n == 2 || n == 4 || n == 8,
        n == 1 ==> val < 0x100,
        n == 2 ==> val < 0x1_0000,
        n == 4 ==> val < 0x1_0000_0000,
        0x8000_0000 <= addr,
        addr - 0x8000_0000 + n <= bus.mem.ram.len(),
    ensures
        ({
            let at = addr - 0x8000_0000;
            let now = bus.stored(addr, val, n);
            &&& now.mem.ram.len() == bus.mem.ram.len()
            &&& le_value(now.mem.ram.subrange(at, at + n)) == val
            &&& guest_value(now.mem.ram, 0x8000_0000, addr as int, n as int) == Some(val as nat)
            &&& 0 <= i < bus.mem.ram.len() && !(at <= i < at + n) ==> now.mem.ram[i]
                == bus.mem.ram[i]
            &&& now.virtio == bus.virtio
            &&& now.uart == bus.uart
            &&& now.plic == bus.plic
        }),
{
    let at = addr - 0x8000_0000;
    let now = bus.stored(addr, val, n);
    crate::bytes::lemma_byte_spans();
    crate::bytes::lemma_le_bytes_len(val as nat, n);
    crate::bytes::lemma_le_round_trip(val as nat, n);
    assert(now.mem.ram.subrange(at, at + n) =~= le_bytes(val as nat, n));
}

/// Firmware and the kernel talk to the core-local interruptor: a deadline that is
/// written is the deadline, the software interrupt is asked for or not, and the
/// clock reads the machine's time.
pub proof fn law_interruptor_reads_back(bus: BusView, val: u64)
    ensures
        bus.mmio_written(0x200_4000, val).deadline == val,
        bus.mmio_written(0x200_4000, val).clint(0x4000) == val,
        bus.mmio_written(0x200_0000, val).msip == (val % 2 == 1),
        bus.mmio_written(0x200_0000, val).clint(0) == val % 2,
        bus.clint(0xbff8) == bus.mtime,
        bus.mmio_written(0x200_4000, val).mtime == bus.mtime,
        bus.mmio_written(0x200_4000, val).mem == bus.mem,
{
}

/// The guest turns the machine off, or asks for a reboot, through the test
/// finisher; other values do nothing.
pub proof fn law_finisher_ends_the_machine(bus: BusView, val: u64)
    ensures
        bus.mmio_written(0x10_0000, val).power_off <==> bus.power_off || val % 0x1_0000 == 0x5555
            || val % 0x1_0000 == 0x7777 || val % 0x1_0000 == 0x3333,
        bus.mmio_written(0x10_0000, val).mem == bus.mem,
{
}

/// Whether a source may interrupt a context.
pub open spec fn may_interrupt(plic: PlicView, ctx: int, i: int) -> bool {
    &&& 0 <= i < 32
    &&& plic.pending[i]
    &&& plic.enable[ctx][i]
    &&& !plic.claimed[i]
    &&& plic.priority[i] > plic.threshold[ctx]
}

proof fn lemma_some_best(plic: PlicView, ctx: int, n: int) -> (id: int)
    requires
        0 <= n <= 32,
        plic.wf(),
        0 <= ctx < 2,
    ensures
        0 <= id < 32,
        id == 0 || id < n,
        id == 0 ==> forall|i: int| 0 <= i < n ==> !plic.claimable(ctx, i),
        id != 0 ==> plic.claimable(ctx, id) && forall|i: int|
            0 <= i < n && #[trigger] plic.claimable(ctx, i) ==> plic.priority[i] < plic.priority[id]
                || (plic.priority[i] == plic.priority[id] && i <= id),
    decreases n,
{
    if n == 0 {
        0
    } else {
        let before = lemma_some_best(plic, ctx, n - 1);
        assert(!plic.enable[ctx][0]);
        if plic.claimable(ctx, n - 1) && (before == 0 || plic.priority[n - 1]
            >= plic.priority[before]) {
            n - 1
        } else {
            before
        }
    }
}

/// A claim gives a source that may interrupt the context, of the highest
/// priority, and the highest number among those of one priority; it gives 0
/// exactly if there is none.
pub proof fn law_claim_gives_the_most_urgent(plic: PlicView, ctx: int, i: int)
    requires
        plic.wf(),
        0 <= ctx < 2,
    ensures
        plic.best(ctx) != 0 ==> may_interrupt(plic, ctx, plic.best(ctx)),
        may_interrupt(plic, ctx, i) ==> plic.best(ctx) != 0 && (plic.priority[i]
            < plic.priority[plic.best(ctx)] || (plic.priority[i] == plic.priority[plic.best(ctx)]
            && i <= plic.best(ctx))),
{
    let id = lemma_some_best(plic, ctx, 32);
    assert(plic.is_best(ctx, id)) by {
        if id == 0 {
            assert forall|i: int| !plic.claimable(ctx, i) by {}
        }
    }
    assert(plic.is_best(ctx, plic.best(ctx)));
    if may_interrupt(plic, ctx, i) {
        assert(plic.claimable(ctx, i));
    }
}

/// A source that is claimed does not interrupt again until it is completed, and
/// may then; no other source is affected.
pub proof fn law_claimed_source_waits(plic: PlicView, ctx: int, id: int, i: int)
    requires
        plic.wf(),
        0 <= ctx < 2,
        0 < id < 32,
        0 <= i < 32,
        i != id,
    ensures
        !may_interrupt(plic.claim(id), ctx, id),
        may_interrupt(plic.claim(id), ctx, i) == may_interrupt(plic, ctx, i),
        !plic.claim(id).written(0x20_0004, id as u32).claimed[id],
        !plic.claim(id).written(0x20_1004, id as u32).claimed[id],
        plic.claim(id).written(0x20_1004, id as u32).claimed[i] == plic.claimed[i],
{
}

/// The guest sets up its sources: a priority, a threshold and the enables that
/// are written are those that count, and nothing else changes. Source 0 is never
/// enabled.
pub proof fn law_sources_are_set_up(plic: PlicView, i: int, val: u32)
    requires
        plic.wf(),
        1 <= i < 32,
    ensures
        plic.written((4 * i) as u64, val) == (PlicView {
            priority: plic.priority.update(i, val),
            ..plic
        }),
        plic.written((4 * i) as u64, val).register((4 * i) as u64) == val,
        plic.written(0x20_0000, val).threshold == plic.threshold.update(0, val),
        plic.written(0x20_1000, val).threshold == plic.threshold.update(1, val),
        plic.written(0x20_1000, val).register(0x20_1000) == val,
        plic.written(0x2000, val).enable[0][i] == source_bit(val, i),
        plic.written(0x2080, val).enable[1][i] == source_bit(val, i),
        plic.written(0x2080, val).enable[0] == plic.enable[0],
        !plic.written(0x2080, val).enable[1][0],
        plic.written(0x2080, val).priority == plic.priority,
{
}

/// A device that raises its line interrupts the hart in supervisor mode, if the
/// guest enabled its source for it and gave it a priority above the threshold,
/// and it is not in service.
pub proof fn law_device_interrupts_the_hart(bus: BusView, i: int)
    requires
        bus.wf(),
        0 < i < 32,
        bus.line(i),
        bus.plic.enable[1][i],
        bus.plic.priority[i] > bus.plic.threshold[1],
        !bus.plic.claimed[i],
    ensures
        bus.sampled().irq_mask() & 0x200 != 0,
{
    let now = bus.sampled();
    assert(now.plic.claimable(1, i));
    crate::machine_laws::law_lines_to_the_hart(now);
}

/// With every line down no device interrupts the hart.
pub proof fn law_quiet_devices_do_not_interrupt(bus: BusView)
    requires
        bus.wf(),
        forall|i: int| 0 <= i < 32 ==> !#[trigger] bus.line(i),
    ensures
        bus.sampled().irq_mask() & 0xa00 == 0,
{
    let now = bus.sampled();
    crate::machine_laws::law_lines_to_the_hart(now);
    assert forall|ctx: int, i: int| !now.plic.claimable(ctx, i) by {
        if 0 <= i < 32 {
            assert(!bus.line(i));
        }
    }
    let mask = now.irq_mask();
    assert(mask & 0xa00 == 0) by (bit_vector)
        requires
            mask & 0x800 == 0,
            mask & 0x200 == 0,
    ;
}

/// The console: a byte that the guest writes to the port comes last in what the
/// host collects, what the host feeds in comes last in what the guest reads, the
/// guest reads the oldest first, and the line status says whether there is any
/// and that the transmitter is free.
pub proof fn law_console_carries_bytes(bus: BusView, val: u64, bytes: Seq<u8>)
    requires
        bus.uart.lcr < 0x80,
    ensures
        bus.mmio_written(0x1000_0000, val).uart.tx == bus.uart.tx.push((val % 0x100) as u8),
        bus.mmio_written(0x1000_0000, val).uart.rx == bus.uart.rx,
        bus.fed(bytes).uart.rx == bus.uart.rx + bytes,
        bus.taken().uart.tx.len() == 0,
        bus.taken().uart.rx == bus.uart.rx,
        bus.uart.rx.len() > 0 ==> bus.uart.register(0) == bus.uart.rx[0],
        bus.uart.rx.len() > 0 ==> bus.uart.after_read(0).rx == bus.uart.rx.drop_first(),
        bus.uart.register(5) == if bus.uart.rx.len() > 0 {
            0x61u8
        } else {
            0x60
        },
        bus.uart.rx.len() > 0 && bus.uart.ier % 2 == 1 ==> bus.uart.irq(),
{
}

/// The bus after the queues of the first `n` devices were polled.
pub open spec fn polled_bus(bus: BusView, n: int) -> BusView {
    let (virtio, mem) = polled(bus.virtio, bus.mem, n);
    BusView { virtio, mem, ..bus }
}

/// Polling does what the driver asks for when it notifies both queues of each
/// device, one device after another: no request waits for a notification that was
/// lost.
pub proof fn law_polling_is_notifying(bus: BusView, n: int)
    requires
        0 <= n < bus.virtio.len(),
    ensures
        polled_bus(bus, 0) == bus,
        polled_bus(bus, n + 1) == polled_bus(bus, n).virtio_written(n, 0x050, 0).virtio_written(
            n,
            0x050,
            1,
        ),
{
    lemma_polled_len(bus, n);
    let before = polled_bus(bus, n);
    let first = before.virtio_written(n, 0x050, 0);
    let second = first.virtio_written(n, 0x050, 1);
    assert(second.virtio =~= polled_bus(bus, n + 1).virtio);
}

proof fn lemma_polled_len(bus: BusView, n: int)
    requires
        n <= bus.virtio.len(),
    ensures
        polled_bus(bus, n).virtio.len() == bus.virtio.len(),
    decreases n,
{
    if n > 0 {
        lemma_polled_len(bus, n - 1);
    }
}

} // verus!
