//! What holds of the machine's clock, its timer interrupts, its firmware calls
//! and the slices that it runs in.

use vstd::prelude::*;
use crate::bus::BusView;
use crate::machine::{
    first_waiting, slice_asked, slice_begun, slice_ended, slice_stopped, HartView, MachineView,
    Slice, SliceAction, SliceStop,
};
use crate::virtio::{BackendView, DeviceView};

verus! {

proof fn lemma_timer_bit(mip: u64)
    by (bit_vector)
    ensures
        (mip | 0x20) & 0x20 == 0x20,
        (mip & !0x20) & 0x20 == 0,
        (mip | 0x20) & !0x20 == mip & !0x20,
        (mip & !0x20) & !0x20 == mip & !0x20,
{
}

/// After a synchronization a directly booted kernel has its timer interrupt
/// exactly if the clock has reached the deadline, and every other interrupt is
/// as before. With firmware the hart's own register is left alone.
pub proof fn law_timer_interrupt_follows_the_clock(m: MachineView)
    requires
        m.cpu.sys is Some,
    ensures
        m.synced().bus.deadline == m.bus.deadline,
        m.synced().cpu.sys is Some,
        m.bus.direct_sbi ==> (m.synced().cpu.sys->0.mip & 0x20 != 0 <==> m.synced().bus.mtime
            >= m.bus.deadline),
        m.synced().cpu.sys->0.mip & !0x20 == m.cpu.sys->0.mip & !0x20,
        !m.bus.direct_sbi ==> m.synced().cpu.sys->0.mip == m.cpu.sys->0.mip,
{
    lemma_timer_bit(m.cpu.sys->0.mip);
}

proof fn lemma_lines(mask: u64, timer: bool, soft: bool, machine: bool, supervisor: bool)
    by (bit_vector)
    requires
        mask == (if timer {
            0x80u64
        } else {
            0
        }) + (if soft {
            8u64
        } else {
            0
        }) + (if machine {
            0x800u64
        } else {
            0
        }) + (if supervisor {
            0x200u64
        } else {
            0
        }),
    ensures
        mask & 0x80 != 0 <==> timer,
        mask & 8 != 0 <==> soft,
        mask & 0x800 != 0 <==> machine,
        mask & 0x200 != 0 <==> supervisor,
        mask & !0xa88u64 == 0,
{
}

/// The lines to the hart: the machine timer is up exactly if firmware runs it
/// and the clock has reached the deadline, the software interrupt while it is
/// asked for, and the external interrupts while the interrupt controller has a
/// source to offer to machine or supervisor mode. There are no others.
pub proof fn law_lines_to_the_hart(bus: BusView)
    ensures
        bus.irq_mask() & 0x80 != 0 <==> !bus.direct_sbi && bus.mtime >= bus.deadline,
        bus.irq_mask() & 8 != 0 <==> bus.msip,
        bus.irq_mask() & 0x800 != 0 <==> exists|i: int| bus.plic.claimable(0, i),
        bus.irq_mask() & 0x200 != 0 <==> exists|i: int| bus.plic.claimable(1, i),
        bus.irq_mask() & !0xa88u64 == 0,
{
    lemma_lines(
        bus.irq_mask(),
        !bus.direct_sbi && bus.mtime >= bus.deadline,
        bus.msip,
        bus.external(0),
        bus.external(1),
    );
}

/// Without a wall clock guest time is the retired instructions in ticks, and the
/// time that was skipped while the hart was idle.
pub proof fn law_instructions_make_time(m: MachineView)
    requires
        m.wf(),
        m.realtime_ticks is None,
        m.cpu.insn_count as int / m.insns_per_tick as int + m.idle_ticks <= u64::MAX,
    ensures
        m.synced().bus.mtime == m.cpu.insn_count as int / m.insns_per_tick as int + m.idle_ticks,
{
}

/// With a wall clock guest time is never behind it, and runs ahead of it only
/// as far as the guest has seen already.
pub proof fn law_guest_follows_the_wall_clock(m: MachineView)
    requires
        m.realtime_ticks is Some,
    ensures
        m.synced().bus.mtime >= m.realtime_ticks->0,
        m.synced().bus.mtime > m.realtime_ticks->0 ==> m.synced().bus.mtime == m.bus.mtime
            || m.synced().bus.mtime == m.rdtime(),
{
}

/// Between two synchronizations TIME advances by a tick for every so many
/// instructions, unless the guest is ahead of the wall clock.
pub proof fn law_time_advances_with_instructions(m: MachineView, ticks: u64)
    requires
        m.wf(),
        m.cpu.sys is Some,
        m.realtime_ticks matches Some(wall) ==> m.synced().bus.mtime <= wall,
        m.cpu.insn_count as int / m.insns_per_tick as int <= m.synced().bus.mtime,
        m.synced().bus.mtime + ticks <= u64::MAX,
        m.cpu.insn_count + ticks * m.insns_per_tick <= u64::MAX,
    ensures
        ({
            let now = m.synced();
            let later = MachineView {
                cpu: HartView {
                    insn_count: (m.cpu.insn_count + ticks * m.insns_per_tick) as u64,
                    ..now.cpu
                },
                ..now
            };
            later.rdtime() == now.bus.mtime + ticks
        }),
{
    let n = m.cpu.insn_count as int;
    let per = m.insns_per_tick as int;
    vstd::arithmetic::div_mod::lemma_div_multiples_vanish_quotient(1, n, per);
    assert((n + ticks * per) / per == n / per + ticks) by (nonlinear_arith)
        requires
            per > 0,
    ;
}

/// A kernel that asks for a timer interrupt gets it as soon as the clock has
/// reached the time it asked for, and not before.
pub proof fn law_timer_fires_when_asked_for(m: MachineView, later: MachineView)
    requires
        m.wf(),
        m.cpu.sys is Some,
        m.bus.direct_sbi,
        m.cpu.x[17] == 0x5449_4d45 && m.cpu.x[16] == 0 || m.cpu.x[17] == 0,
        later.cpu.sys is Some,
        later.bus.direct_sbi,
        later.bus.deadline == m.sbi_served().bus.deadline,
    ensures
        m.sbi_served().cpu.x[10] == 0,
        m.sbi_served().cpu.sys is Some,
        m.sbi_served().cpu.sys->0.mip & 0x20 != 0 <==> m.bus.mtime >= m.cpu.x[10],
        m.sbi_served().cpu.sys->0.mip & !0x20 == m.cpu.sys->0.mip & !0x20,
        later.synced().cpu.sys->0.mip & 0x20 != 0 <==> later.synced().bus.mtime >= m.cpu.x[10],
{
    lemma_timer_bit(m.cpu.sys->0.mip);
    law_timer_interrupt_follows_the_clock(later);
}

/// The answer to a firmware call comes in a0 and a1: no other register, no
/// memory and no device but the console is touched.
pub proof fn law_firmware_call_touches_its_results_only(m: MachineView, r: int)
    requires
        m.wf(),
        0 <= r < 32,
        r != 10,
        r != 11,
    ensures
        m.sbi_served().cpu.x.len() == 32,
        m.sbi_served().cpu.x[r] == m.cpu.x[r],
        m.sbi_served().cpu.pc == m.cpu.pc,
        m.sbi_served().cpu.insn_count == m.cpu.insn_count,
        m.sbi_served().bus.mem == m.bus.mem,
        m.sbi_served().bus.virtio == m.bus.virtio,
        m.sbi_served().bus.plic == m.bus.plic,
        m.sbi_served().bus.mtime == m.bus.mtime,
        m.sbi_served().bus.uart.rx == m.bus.uart.rx,
{
}

/// Firmware is version 2.0 of the interface, and offers exactly the base, timer,
/// inter-processor, remote fence, hart state and reset extensions.
pub proof fn law_firmware_says_what_it_offers(m: MachineView)
    requires
        m.wf(),
        m.cpu.x[17] == 0x10,
    ensures
        m.sbi_served().cpu.x[10] == if m.cpu.x[16] <= 6 {
            0u64
        } else {
            0xffff_ffff_ffff_fffe
        },
        m.cpu.x[16] == 0 ==> m.sbi_served().cpu.x[11] == 0x200_0000,
        m.cpu.x[16] == 3 ==> m.sbi_served().cpu.x[11] == if m.cpu.x[10] == 0x10 || m.cpu.x[10]
            == 0x5449_4d45 || m.cpu.x[10] == 0x73_5049 || m.cpu.x[10] == 0x5246_4e43 || m.cpu.x[10]
            == 0x48_534d || m.cpu.x[10] == 0x5352_5354 {
            1u64
        } else {
            0
        },
{
}

/// A call that turns the machine off turns it off, and a slice ends with it. A
/// character that is printed comes last on the console. A fence of instructions
/// makes the hart fetch afresh.
pub proof fn law_firmware_does_what_it_is_asked(m: MachineView, s: Slice)
    requires
        m.wf(),
        m.bus.direct_sbi,
        m.unsupported_sbi is None,
    ensures
        (m.cpu.x[17] == 0x5352_5354 && m.cpu.x[16] == 0 && m.cpu.x[10] <= 2) || m.cpu.x[17] == 8
            ==> m.sbi_served().power_off && m.sbi_served().bus.power_off && slice_stopped(
            m,
            s,
            SliceStop::Ecall,
        ).action is Done && slice_stopped(m, s, SliceStop::Ecall).machine.power_off,
        m.cpu.x[17] == 1 && m.bus.uart.lcr < 0x80 ==> m.sbi_served().bus.uart.tx == m.bus.uart.tx.push(
            (m.cpu.x[10] % 0x100) as u8,
        ),
        (m.cpu.x[17] == 0x5246_4e43 && m.cpu.x[16] == 0) || m.cpu.x[17] == 5
            ==> m.sbi_served().cpu.icache_gen != m.cpu.icache_gen && m.sbi_served().cpu.x[10] == 0,
{
}

/// Whether a disk waits for the host.
pub open spec fn a_disk_waits(m: MachineView) -> bool {
    exists|i: int|
        0 <= i < m.bus.virtio.len() && ((#[trigger] m.bus.virtio[i]).backend
            matches BackendView::ExternalBlock { size, pending } && pending is Some)
}

/// Whether the host keeps a disk.
pub open spec fn the_host_keeps_a_disk(m: MachineView) -> bool {
    exists|i: int|
        0 <= i < m.bus.virtio.len() && (#[trigger] m.bus.virtio[i]).backend
            is ExternalBlock
}

proof fn lemma_pending_is_waiting(m: MachineView)
    ensures
        m.pending() is Some <==> a_disk_waits(m),
{
    lemma_first_waiting_found(m.bus.virtio, m.bus.virtio.len() as int);
}

proof fn lemma_first_waiting_found(virtio: Seq<DeviceView>, n: int)
    requires
        0 <= n <= virtio.len(),
    ensures
        match first_waiting(virtio, n) {
            Some(i) => 0 <= i < n && (virtio[i].backend matches BackendView::ExternalBlock {
                size,
                pending,
            } && pending is Some),
            None => forall|i: int|
                0 <= i < n ==> !((#[trigger] virtio[i]).backend
                    matches BackendView::ExternalBlock { size, pending } && pending is Some),
        },
    decreases n,
{
    if n > 0 {
        lemma_first_waiting_found(virtio, n - 1);
    }
}

/// Whether a slice reports the instructions that ran in it, and hands the hart no
/// more than it has left: at most 64 at a time where the embedding or a disk that the
/// host keeps needs devices synchronized.
pub open spec fn accounts(m: MachineView, s: Slice, left: int, action: SliceAction) -> bool {
    match action {
        SliceAction::Done(outcome) => outcome.retired == m.cpu.insn_count - s.start,
        SliceAction::Run(budget) => {
            &&& 1 <= budget <= left
            &&& s.remaining == left
            &&& s.before == m.cpu.insn_count
            &&& (s.periodic || the_host_keeps_a_disk(m)) ==> budget <= 64
            &&& !(s.periodic || the_host_keeps_a_disk(m)) ==> budget == left
        },
        SliceAction::Ask(pc) => s.remaining == left && pc == m.cpu.pc,
    }
}

/// Slices account for every instruction: what is left of a slice after a stretch
/// is what was left before without what was retired, the end of a slice reports
/// what was retired since its start, and no step of a slice retires any.
pub proof fn law_slices_account_for_instructions(
    m: MachineView,
    s: Slice,
    stop: SliceStop,
    asked: bool,
    max: u64,
    periodic: bool,
)
    requires
        m.wf(),
        s.start <= s.before <= m.cpu.insn_count,
    ensures
        ({
            let begun = slice_begun(m, max, periodic);
            let stopped = slice_stopped(m, s, stop);
            let answered = slice_asked(m, s, asked);
            let retired = m.cpu.insn_count - s.before;
            let left = if retired >= s.remaining {
                0
            } else {
                s.remaining - retired
            };
            &&& begun.machine.cpu.insn_count == m.cpu.insn_count
            &&& begun.slice.start == m.cpu.insn_count
            &&& begun.slice.periodic == periodic
            &&& accounts(begun.machine, begun.slice, max as int, begun.action)
            &&& stopped.machine.cpu.insn_count == m.cpu.insn_count
            &&& stopped.slice.start == s.start
            &&& stopped.slice.periodic == s.periodic
            &&& accounts(stopped.machine, stopped.slice, left, stopped.action)
            &&& answered.machine.cpu.insn_count == m.cpu.insn_count
            &&& answered.slice.start == s.start
            &&& answered.slice.periodic == s.periodic
            &&& accounts(answered.machine, answered.slice, s.remaining as int, answered.action)
        }),
{
}

/// While a disk waits for the host the hart does not run: the slice ends, so that
/// the host can serve it.
pub proof fn law_waiting_disk_ends_the_slice(m: MachineView, s: Slice, max: u64, periodic: bool)
    requires
        m.wf(),
        s.before <= m.cpu.insn_count,
    ensures
        a_disk_waits(m.polled()) ==> slice_begun(m, max, periodic).action is Done,
        a_disk_waits(m) ==> slice_stopped(m, s, SliceStop::Budget).action is Done,
        !a_disk_waits(m.polled()) && max > 0 && !m.power_off ==> slice_begun(
            m,
            max,
            periodic,
        ).action is Run,
{
    lemma_pending_is_waiting(m.polled().synced());
    lemma_pending_is_waiting(m.synced());
    assert(m.synced().bus.virtio == m.bus.virtio);
    assert(m.polled().synced().bus.virtio == m.polled().bus.virtio);
    if a_disk_waits(m) {
        let i = choose|i: int|
            0 <= i < m.bus.virtio.len() && ((#[trigger] m.bus.virtio[i]).backend
                matches BackendView::ExternalBlock { size, pending } && pending is Some);
        assert(m.synced().bus.virtio[i].backend matches BackendView::ExternalBlock { size, pending }
            && pending is Some);
    }
    if a_disk_waits(m.polled()) {
        let i = choose|i: int|
            0 <= i < m.polled().bus.virtio.len() && ((#[trigger] m.polled().bus.virtio[i]).backend
                matches BackendView::ExternalBlock { size, pending } && pending is Some);
        assert(m.polled().synced().bus.virtio[i].backend matches BackendView::ExternalBlock {
            size,
            pending,
        } && pending is Some);
    }
}

/// A slice is idle exactly if the hart waits for an interrupt and no timer can be
/// skipped to: a wall clock runs, or no deadline is ahead.
pub proof fn law_idle_is_waiting_without_a_timer(m: MachineView, s: Slice, stop: SliceStop)
    requires
        m.wf(),
        s.start <= s.before <= m.cpu.insn_count,
    ensures
        slice_stopped(m, s, stop).action matches SliceAction::Done(outcome) ==> (outcome.idle
            <==> stop == SliceStop::Wfi && (m.realtime_ticks is Some || m.bus.deadline == u64::MAX
            || m.bus.deadline <= m.bus.mtime)),
        stop == SliceStop::Wfi ==> slice_stopped(m, s, stop).action is Done,
{
}

/// A kernel that waits for its timer wakes to the timer's interrupt.
pub proof fn law_waiting_kernel_gets_its_timer(m: MachineView, s: Slice)
    requires
        m.wf(),
        m.bus.direct_sbi,
        m.cpu.sys is Some,
        m.realtime_ticks is None,
        m.bus.mtime < m.bus.deadline < u64::MAX,
        m.cpu.insn_count as int / m.insns_per_tick as int + m.idle_ticks == m.bus.mtime,
        s.start <= s.before <= m.cpu.insn_count,
    ensures
        slice_stopped(m, s, SliceStop::Wfi).machine.bus.mtime == m.bus.deadline,
        slice_stopped(m, s, SliceStop::Wfi).machine.cpu.sys is Some,
        slice_stopped(m, s, SliceStop::Wfi).machine.cpu.sys->0.mip & 0x20 != 0,
{
    lemma_timer_bit(m.cpu.sys->0.mip);
}

/// Instructions that the guest made while it waited for nothing are not lost to
/// the clock: at the end of a slice TIME reads the machine's clock, which is
/// what the instructions and the idle time make.
pub proof fn law_slice_ends_on_time(m: MachineView, s: Slice, halted: bool)
    requires
        m.wf(),
    ensures
        slice_ended(m, s, halted).machine.rdtime() == slice_ended(m, s, halted).machine.bus.mtime,
        slice_ended(m, s, halted).machine.power_off == (m.power_off || m.bus.power_off),
{
}

} // verus!
