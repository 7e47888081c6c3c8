//! A one-line dump of interrupt-delivery state, for diagnosing idle hangs.

use vstd::prelude::*;
use crate::bus::VirtBus;
use crate::bytes::{dec_text, hex_text, le_value, push_dec, push_hex, read_le};
use crate::machine::{MachineView, VirtMachine};
use crate::plic::sources;
use crate::ram::{checked_ram_range, RAM_BASE};
use crate::virtio::DeviceView;

verus! {

/// Registers of the hart that only the dump reads.
#[derive(Debug, Clone, Copy, PartialEq, Eq, Structural)]
pub struct TrapRegisters {
    pub mie: u64,
    pub sepc: u64,
    pub scause: u64,
}

/// The little-endian halfword at a guest-physical address, or zero outside RAM.
pub open spec fn halfword(ram: Seq<u8>, pa: u64) -> u16 {
    if RAM_BASE <= pa && pa - RAM_BASE + 2 <= ram.len() {
        le_value(ram.subrange(pa - RAM_BASE, pa - RAM_BASE + 2)) as u16
    } else {
        0
    }
}

/// Read a u16 from guest RAM (little-endian), for ring inspection.
fn ram_u16(ram: &[u8], pa: u64) -> (v: u16)
    ensures
        v == halfword(ram@, pa),
{
    match checked_ram_range(ram.len(), RAM_BASE, pa, 2) {
        Some(range) => read_le(ram, range.start, 2) as u16,
        None => 0,
    }
}

/// What is added to a number by two, in the width of an address.
pub open spec fn two_past(addr: u64) -> u64 {
    if addr <= u64::MAX - 2 {
        (addr + 2) as u64
    } else {
        (addr + 2 - 0x1_0000_0000_0000_0000) as u64
    }
}

/// How far `a` is past `b`, in the width of a ring index.
pub open spec fn ring_distance(a: u16, b: u16) -> nat {
    if a >= b {
        (a - b) as nat
    } else {
        (a + 0x1_0000 - b) as nat
    }
}

/// The characters of ASCII digits.
pub open spec fn ascii(digits: Seq<u8>) -> Seq<char> {
    digits.map_values(|b: u8| b as char)
}

pub open spec fn truth(b: bool) -> Seq<char> {
    if b {
        "true"@
    } else {
        "false"@
    }
}

/// A line with a label and a decimal number behind it.
pub open spec fn with_dec(line: Seq<char>, label: &str, v: nat) -> Seq<char> {
    line + label@ + ascii(dec_text(v))
}

/// A line with a label and a hexadecimal number behind it.
pub open spec fn with_hex(line: Seq<char>, label: &str, v: nat) -> Seq<char> {
    line + label@ + ascii(hex_text(v))
}

/// A line with the state of a queue behind it: what the guest submitted, what
/// was serviced and what was published.
pub open spec fn with_ring(line: Seq<char>, avail: u16, serviced: u16, used: u16) -> Seq<char> {
    let line = with_dec(line, " q0[avail.idx=", avail as nat);
    let line = with_dec(line, " serviced=", serviced as nat);
    let line = with_dec(line, " used.idx=", used as nat);
    let line = with_dec(line, " outstanding=", ring_distance(avail, serviced));
    line + "]"@
}

/// A line with the state of one device behind it: its interrupt line and, once
/// its first queue is ready, that queue.
pub open spec fn with_device(line: Seq<char>, dev: DeviceView, ram: Seq<u8>, i: nat) -> Seq<char> {
    let q = dev.queues[0];
    let line = with_dec(line, "v", i) + ".irq="@ + truth(dev.int_status != 0);
    if q.ready != 0 {
        with_ring(
            line,
            halfword(ram, two_past(q.avail)),
            q.last_avail_idx,
            halfword(ram, two_past(q.used)),
        )
    } else {
        line
    }
}

/// A line with the states of the first `n` devices behind it, with commas
/// between them.
pub open spec fn with_devices(line: Seq<char>, devices: Seq<DeviceView>, ram: Seq<u8>, n: int) -> Seq<
    char,
>
    decreases n,
{
    if n <= 0 {
        line
    } else {
        let before = with_devices(line, devices, ram, n - 1);
        with_device(
            if n == 1 {
                before
            } else {
                before + ","@
            },
            devices[n - 1],
            ram,
            (n - 1) as nat,
        )
    }
}

/// The state that decides whether an interrupt reaches the hart, on one line.
pub open spec fn irq_line(m: MachineView, pending: u32, claimed: u32, regs: TrapRegisters) -> Seq<
    char,
> {
    let (mip, mie, sepc, scause) = match m.cpu.sys {
        Some(sys) => (sys.mip, regs.mie, regs.sepc, regs.scause),
        None => (0u64, 0u64, 0u64, 0u64),
    };
    let line = with_hex(Seq::empty(), "plic{pend=0x", pending as nat);
    let line = with_hex(line, " claimed=0x", claimed as nat);
    let line = with_dec(line, " best1=", m.bus.plic.best(1) as nat) + "} "@;
    let line = with_devices(line, m.bus.virtio, m.bus.mem.ram, m.bus.virtio.len() as int);
    let line = with_hex(line, " mip=0x", mip as nat);
    let line = with_hex(line, " mie=0x", mie as nat);
    let line = with_dec(line, " mtime=", m.bus.mtime as nat);
    let line = with_dec(line, " mtcmp=", m.bus.deadline as nat);
    let line = line + " timer_future="@ + truth(m.bus.deadline > m.bus.mtime);
    let line = with_hex(line, " sepc=0x", sepc as nat);
    with_hex(line, " scause=0x", scause as nat)
}

fn push_text(out: &mut String, s: &str)
    ensures
        final(out)@ == old(out)@ + s@,
{
    let ghost before = out@;
    for c in it: s.chars()
        invariant
            out@ == before + it.seq().subrange(0, it.index()),
            it.seq() == s@,
    {
        out.push(c);
        assert(out@ =~= before + it.seq().subrange(0, it.index() + 1));
    }
    assert(out@ =~= before + s@);
}

fn push_digits(out: &mut String, digits: &[u8])
    ensures
        final(out)@ == old(out)@ + ascii(digits@),
{
    let ghost before = out@;
    let mut i: usize = 0;
    while i < digits.len()
        invariant
            i <= digits@.len(),
            out@ == before + ascii(digits@.subrange(0, i as int)),
        decreases digits@.len() - i,
    {
        out.push(digits[i] as char);
        i = i + 1;
        assert(out@ =~= before + ascii(digits@.subrange(0, i as int)));
    }
    assert(digits@.subrange(0, i as int) =~= digits@);
}

fn push_truth(out: &mut String, b: bool)
    ensures
        final(out)@ == old(out)@ + truth(b),
{
    if b {
        push_text(out, "true");
    } else {
        push_text(out, "false");
    }
}

fn push_labelled_dec(out: &mut String, label: &str, v: u64)
    ensures
        final(out)@ == with_dec(old(out)@, label, v as nat),
{
    push_text(out, label);
    let mut digits: Vec<u8> = Vec::new();
    push_dec(&mut digits, v);
    assert(digits@ =~= dec_text(v as nat));
    push_digits(out, digits.as_slice());
}

fn push_labelled_hex(out: &mut String, label: &str, v: u64)
    ensures
        final(out)@ == with_hex(old(out)@, label, v as nat),
{
    push_text(out, label);
    let mut digits: Vec<u8> = Vec::new();
    push_hex(&mut digits, v);
    assert(digits@ =~= hex_text(v as nat));
    push_digits(out, digits.as_slice());
}

fn push_device(out: &mut String, bus: &VirtBus, i: usize)
    requires
        bus.wf(),
        i < bus@.virtio.len(),
    ensures
        final(out)@ == with_device(
            old(out)@,
            bus@.virtio[i as int],
            bus@.mem.ram,
            i as nat,
        ),
{
    assert(bus@.virtio[i as int].wf());
    push_labelled_dec(out, "v", i as u64);
    push_text(out, ".irq=");
    push_truth(out, bus.virtio[i].irq_pending());
    match bus.virtio[i].queue_debug(0) {
        None => {},
        Some((_ready, _num, avail, used, last_avail)) => {
            let avail_idx: u16 = ram_u16(bus.ram.as_slice(), avail.wrapping_add(2));
            let used_idx: u16 = ram_u16(bus.ram.as_slice(), used.wrapping_add(2));
            push_labelled_dec(out, " q0[avail.idx=", avail_idx as u64);
            push_labelled_dec(out, " serviced=", last_avail as u64);
            push_labelled_dec(out, " used.idx=", used_idx as u64);
            push_labelled_dec(out, " outstanding=", avail_idx.wrapping_sub(last_avail) as u64);
            push_text(out, "]");
        },
    }
}

fn push_devices(out: &mut String, bus: &VirtBus)
    requires
        bus.wf(),
    ensures
        final(out)@ == with_devices(
            old(out)@,
            bus@.virtio,
            bus@.mem.ram,
            bus@.virtio.len() as int,
        ),
{
    let mut i: usize = 0;
    while i < bus.virtio.len()
        invariant
            bus.wf(),
            i <= bus.virtio@.len(),
            bus@.virtio.len() == bus.virtio@.len(),
            out@ == with_devices(old(out)@, bus@.virtio, bus@.mem.ram, i as int),
        decreases bus.virtio@.len() - i,
    {
        if i > 0 {
            push_text(out, ",");
        }
        push_device(out, bus, i);
        i = i + 1;
    }
}

impl VirtMachine {
    /// One-line dump of interrupt-delivery state, for diagnosing idle hangs.
    pub fn debug_irq_state(&self, regs: TrapRegisters) -> (line: String)
        requires
            self.wf(),
        ensures
            exists|pending: u32, claimed: u32|
                sources(pending) == self@.bus.plic.pending && sources(claimed)
                    == self@.bus.plic.claimed && line@ == #[trigger] irq_line(
                    self@,
                    pending,
                    claimed,
                    regs,
                ),
    {
        let (mip, mie, sepc, scause): (u64, u64, u64, u64) = match &self.cpu.sys {
            Some(sys) => (sys.mip, regs.mie, regs.sepc, regs.scause),
            None => (0, 0, 0, 0),
        };
        let (pending, claimed): (u32, u32) = self.bus.plic.masks();
        let mut line: String = String::new();
        push_labelled_hex(&mut line, "plic{pend=0x", pending as u64);
        push_labelled_hex(&mut line, " claimed=0x", claimed as u64);
        push_labelled_dec(&mut line, " best1=", self.bus.plic.best(1) as u64);
        push_text(&mut line, "} ");
        push_devices(&mut line, &self.bus);
        push_labelled_hex(&mut line, " mip=0x", mip);
        push_labelled_hex(&mut line, " mie=0x", mie);
        push_labelled_dec(&mut line, " mtime=", self.bus.mtime);
        push_labelled_dec(&mut line, " mtcmp=", self.bus.deadline);
        push_text(&mut line, " timer_future=");
        push_truth(&mut line, self.bus.deadline > self.bus.mtime);
        push_labelled_hex(&mut line, " sepc=0x", sepc);
        push_labelled_hex(&mut line, " scause=0x", scause);
        assert(line@ == irq_line(self@, pending, claimed, regs));
        line
    }
}

} // verus!
