//! The system bus of the `virt` machine: RAM and memory-mapped devices.

use vstd::prelude::*;
use crate::board::{
    CLINT_BASE, CLINT_SIZE, GOLDFISH_RTC_BASE, GOLDFISH_RTC_IRQ, GOLDFISH_RTC_SIZE, PLIC_BASE,
    PLIC_SIZE, TEST_BASE, UART_BASE, UART_IRQ, UART_SIZE, VIRTIO_BASE, VIRTIO_COUNT,
    VIRTIO_IRQ_BASE, VIRTIO_SIZE,
};
use crate::bytes::{byte_span, le_bytes, push_le, read_le, spliced, write_at};
use crate::dma::{guest_value, in_ram, lemma_observed_on, memory, Memory};
use crate::plic::{lemma_no_source, source_bit, sources, with_source, Plic, PlicView};
use crate::ram::{checked_ram_range, JitPageState, JitPages, RAM_BASE};
use crate::uart::{Uart, UartView};
use crate::virtio::{notified, DeviceView, VirtioDev};

verus! {

/// Machine software interrupt pending.
pub const IRQ_MSIP: u64 = 0x8;

/// Machine timer interrupt pending.
pub const IRQ_MTIP: u64 = 0x80;

/// Machine external interrupt pending.
pub const IRQ_MEIP: u64 = 0x800;

/// Supervisor software interrupt pending.
pub const IRQ_SSIP: u64 = 0x2;

/// Supervisor timer interrupt pending.
pub const IRQ_STIP: u64 = 0x20;

/// Supervisor external interrupt pending.
pub const IRQ_SEIP: u64 = 0x200;

/// The device register that an address selects.
#[derive(Clone, Copy, PartialEq, Eq, Structural, Debug)]
pub enum Region {
    Test,
    Clint(u64),
    Plic(u64),
    Uart(u64),
    Rtc(u64),
    Virtio(u64, u64),
    Unmapped,
}

/// The memory map outside RAM.
pub open spec fn region_of(addr: u64) -> Region {
    if TEST_BASE <= addr < TEST_BASE + 0x1000 {
        Region::Test
    } else if CLINT_BASE <= addr < CLINT_BASE + CLINT_SIZE {
        Region::Clint((addr - CLINT_BASE) as u64)
    } else if PLIC_BASE <= addr < PLIC_BASE + PLIC_SIZE {
        Region::Plic((addr - PLIC_BASE) as u64)
    } else if UART_BASE <= addr < UART_BASE + UART_SIZE {
        Region::Uart((addr - UART_BASE) as u64)
    } else if GOLDFISH_RTC_BASE <= addr < GOLDFISH_RTC_BASE + GOLDFISH_RTC_SIZE {
        Region::Rtc((addr - GOLDFISH_RTC_BASE) as u64)
    } else if VIRTIO_BASE <= addr < VIRTIO_BASE + VIRTIO_COUNT * VIRTIO_SIZE {
        Region::Virtio(
            ((addr - VIRTIO_BASE) / VIRTIO_SIZE as int) as u64,
            ((addr - VIRTIO_BASE) % VIRTIO_SIZE as int) as u64,
        )
    } else {
        Region::Unmapped
    }
}

fn select(addr: u64) -> (region: Region)
    ensures
        region == region_of(addr),
{
    if TEST_BASE <= addr && addr < TEST_BASE + 0x1000 {
        Region::Test
    } else if CLINT_BASE <= addr && addr < CLINT_BASE + CLINT_SIZE {
        Region::Clint(addr - CLINT_BASE)
    } else if PLIC_BASE <= addr && addr < PLIC_BASE + PLIC_SIZE {
        Region::Plic(addr - PLIC_BASE)
    } else if UART_BASE <= addr && addr < UART_BASE + UART_SIZE {
        Region::Uart(addr - UART_BASE)
    } else if GOLDFISH_RTC_BASE <= addr && addr < GOLDFISH_RTC_BASE + GOLDFISH_RTC_SIZE {
        Region::Rtc(addr - GOLDFISH_RTC_BASE)
    } else if VIRTIO_BASE <= addr && addr < VIRTIO_BASE + VIRTIO_COUNT * VIRTIO_SIZE {
        Region::Virtio((addr - VIRTIO_BASE) / VIRTIO_SIZE, (addr - VIRTIO_BASE) % VIRTIO_SIZE)
    } else {
        Region::Unmapped
    }
}

/// The outcome of a bus read. The real-time clock is kept by the embedding,
/// which answers a read of its registers itself.
#[derive(Clone, Copy, PartialEq, Eq, Structural, Debug)]
pub enum BusRead {
    Value(u64),
    Rtc(u64),
    Fault,
}

/// The outcome of a bus write. The real-time clock is kept by the embedding,
/// which carries out a write to its registers itself.
#[derive(Clone, Copy, PartialEq, Eq, Structural, Debug)]
pub enum BusWrite {
    Done,
    Rtc(u64, u32),
    Fault,
}

/// The system bus.
pub struct VirtBus {
    pub ram: Vec<u8>,
    // CLINT
    pub mtime: u64,
    pub deadline: u64,
    pub msip: bool,
    /// Interrupt line of the real-time clock.
    pub rtc_irq: bool,
    pub(crate) plic: Plic,
    pub(crate) uart: Uart,
    pub virtio: Vec<VirtioDev>,
    pub power_off: bool,
    pub(crate) direct_sbi: bool,
    pub jit: JitPageState,
}

/// The state of a [`VirtBus`].
#[verifier::ext_equal]
pub struct BusView {
    pub mem: Memory,
    pub mtime: u64,
    pub deadline: u64,
    pub msip: bool,
    pub rtc_irq: bool,
    pub plic: PlicView,
    pub uart: UartView,
    pub virtio: Seq<DeviceView>,
    pub power_off: bool,
    pub direct_sbi: bool,
}

/// The states of several devices.
pub open spec fn devices(virtio: Seq<VirtioDev>) -> Seq<DeviceView> {
    virtio.map_values(|dev: VirtioDev| dev@)
}

impl View for VirtBus {
    type V = BusView;

    open(crate) spec fn view(&self) -> BusView {
        BusView {
            mem: memory(self.ram@, self.jit),
            mtime: self.mtime,
            deadline: self.deadline,
            msip: self.msip,
            rtc_irq: self.rtc_irq,
            plic: self.plic@,
            uart: self.uart@,
            virtio: devices(self.virtio@),
            power_off: self.power_off,
            direct_sbi: self.direct_sbi,
        }
    }
}

impl BusView {
    /// Every device is valid, and each virtio device has a slot in the memory
    /// map.
    pub open spec fn wf(self) -> bool {
        &&& self.plic.wf()
        &&& self.virtio.len() <= VIRTIO_COUNT
        &&& forall|i: int| 0 <= i < self.virtio.len() ==> (#[trigger] self.virtio[i]).wf()
    }

    /// The value that a read of `n` bytes of a core-local interruptor register
    /// gives.
    pub open spec fn clint(self, off: u64) -> u64 {
        if off == 0 {
            if self.msip {
                1
            } else {
                0
            }
        } else if off == 0x4000 {
            self.deadline
        } else if off == 0xbff8 {
            self.mtime
        } else {
            0
        }
    }

    /// The bus after a write to the test finisher: 0x5555 powers off, 0x7777
    /// reboots and 0x3333 fails, all of which end the machine.
    pub open spec fn finished(self, val: u64) -> BusView {
        let code = val % 0x1_0000;
        BusView {
            power_off: self.power_off || code == 0x5555 || code == 0x7777 || code == 0x3333,
            ..self
        }
    }

    /// The bus after a write of `val` to a register of virtio device `i`. A
    /// notify processes the queue at once.
    pub open spec fn virtio_written(self, i: int, off: u64, val: u32) -> BusView {
        if i < self.virtio.len() {
            let dev = self.virtio[i].register_written(off, val);
            if off == 0x050 {
                let (served, mem) = notified(dev, self.mem, RAM_BASE, val as int);
                BusView { virtio: self.virtio.update(i, served), mem, ..self }
            } else {
                BusView { virtio: self.virtio.update(i, dev), ..self }
            }
        } else {
            self
        }
    }

    /// The bus after a device write.
    pub open spec fn mmio_written(self, addr: u64, val: u64) -> BusView {
        match region_of(addr) {
            Region::Test => self.finished(val),
            Region::Clint(off) => if off == 0 {
                BusView { msip: val % 2 == 1, ..self }
            } else if off == 0x4000 {
                BusView { deadline: val, ..self }
            } else {
                self
            },
            Region::Plic(off) => BusView {
                plic: self.plic.written(off, (val % 0x1_0000_0000) as u32),
                ..self
            },
            Region::Uart(off) => BusView {
                uart: self.uart.written(off, (val % 0x100) as u8),
                ..self
            },
            Region::Virtio(i, off) => self.virtio_written(
                i as int,
                off,
                (val % 0x1_0000_0000) as u32,
            ),
            Region::Rtc(off) => self,
            Region::Unmapped => self,
        }
    }

    /// The bus after a store of `n` bytes. The page of compiled code at the
    /// address is noted in any case.
    pub open spec fn stored(self, addr: u64, val: u64, n: nat) -> BusView {
        let pages = match self.mem.pages.page_of(addr) {
            Some(page) => self.mem.pages.noted(page),
            None => self.mem.pages,
        };
        let noted = BusView { mem: Memory { pages, ..self.mem }, ..self };
        if in_ram(self.mem.ram.len(), RAM_BASE, addr as int, n as int) {
            BusView {
                mem: Memory {
                    ram: spliced(self.mem.ram, addr - RAM_BASE, le_bytes(val as nat, n)),
                    pages,
                },
                ..noted
            }
        } else {
            noted.mmio_written(addr, val)
        }
    }

    /// The bus after a load of `n` bytes: a read of the UART may take a byte or
    /// acknowledge its interrupt, and a read of a claim register claims.
    pub open spec fn loaded(self, addr: u64, n: nat) -> BusView {
        if in_ram(self.mem.ram.len(), RAM_BASE, addr as int, n as int) {
            self
        } else {
            match region_of(addr) {
                Region::Uart(off) => BusView { uart: self.uart.after_read(off), ..self },
                Region::Plic(off) => match PlicView::claim_context(off) {
                    Some(ctx) => BusView { plic: self.plic.claim(self.plic.best(ctx)), ..self },
                    None => self,
                },
                _ => self,
            }
        }
    }

    /// The bus after the host collected the console output.
    pub open spec fn taken(self) -> BusView {
        BusView { uart: UartView { tx: Seq::empty(), ..self.uart }, ..self }
    }

    /// The bus after the host fed console input.
    pub open spec fn fed(self, bytes: Seq<u8>) -> BusView {
        BusView { uart: UartView { rx: self.uart.rx + bytes, ..self.uart }, ..self }
    }

    /// The bus after firmware printed a byte on the console.
    pub open spec fn printed(self, byte: u8) -> BusView {
        BusView { uart: self.uart.written(0, byte), ..self }
    }

    /// Whether the line of interrupt source `i` is up.
    pub open spec fn line(self, i: int) -> bool {
        ||| i == UART_IRQ && self.uart.irq()
        ||| i == GOLDFISH_RTC_IRQ && self.rtc_irq
        ||| (VIRTIO_IRQ_BASE <= i < VIRTIO_IRQ_BASE + self.virtio.len() && self.virtio[i
            - VIRTIO_IRQ_BASE].int_status != 0)
    }

    /// The bus after the interrupt controller samples the device lines.
    pub open spec fn sampled(self) -> BusView {
        BusView {
            plic: PlicView { pending: Seq::new(32, |i: int| self.line(i)), ..self.plic },
            ..self
        }
    }

    /// Whether a context of the interrupt controller has a source to offer.
    pub open spec fn external(self, ctx: int) -> bool {
        exists|i: int| self.plic.claimable(ctx, i)
    }

    /// The interrupts that the devices assert to the hart.
    pub open spec fn irq_mask(self) -> u64 {
        ((if !self.direct_sbi && self.mtime >= self.deadline {
            IRQ_MTIP as int
        } else {
            0
        }) + (if self.msip {
            IRQ_MSIP as int
        } else {
            0
        }) + (if self.external(0) {
            IRQ_MEIP as int
        } else {
            0
        }) + (if self.external(1) {
            IRQ_SEIP as int
        } else {
            0
        })) as u64
    }
}

/// Devices `..n` polled in order, each on both of its queues.
pub open spec fn polled(virtio: Seq<DeviceView>, mem: Memory, n: int) -> (Seq<DeviceView>, Memory)
    decreases n,
{
    if n <= 0 {
        (virtio, mem)
    } else {
        let (devs, before) = polled(virtio, mem, n - 1);
        let (first, between) = notified(devs[n - 1], before, RAM_BASE, 0);
        let (second, after) = notified(first, between, RAM_BASE, 1);
        (devs.update(n - 1, second), after)
    }
}

impl VirtBus {
    /// See [`BusView::wf`].
    pub open(crate) spec fn wf(&self) -> bool {
        &&& self@.wf()
        &&& self.jit.wf()
    }

    /// A bus with `ram` and `virtio`, and every other device out of reset.
    pub fn new(ram: Vec<u8>, virtio: Vec<VirtioDev>, direct_sbi: bool) -> (bus: VirtBus)
        requires
            virtio@.len() <= VIRTIO_COUNT,
            forall|i: int| 0 <= i < virtio@.len() ==> (#[trigger] virtio@[i]).wf(),
        ensures
            bus.wf(),
            bus@.mem.ram == ram@,
            bus@.mem.pages.marked == Seq::new(((ram@.len() + 4095) / 4096) as nat, |p: int| false),
            bus@.mem.pages.generation == Seq::new(
                ((ram@.len() + 4095) / 4096) as nat,
                |p: int| 0u64,
            ),
            bus@.mem.pages.dirty == Seq::<u64>::empty(),
            bus@.mtime == 0,
            bus@.deadline == u64::MAX,
            !bus@.msip,
            !bus@.rtc_irq,
            bus@.plic == PlicView::reset(),
            bus@.uart == UartView::reset(),
            bus@.virtio == devices(virtio@),
            !bus@.power_off,
            bus@.direct_sbi == direct_sbi,
    {
        let jit = JitPageState::new(ram.len());
        let bus = VirtBus {
            ram,
            mtime: 0,
            deadline: u64::MAX,
            msip: false,
            rtc_irq: false,
            plic: Plic::new(),
            uart: Uart::new(),
            virtio,
            power_off: false,
            direct_sbi,
            jit,
        };
        assert forall|i: int| 0 <= i < bus@.virtio.len() implies (#[trigger]
        bus@.virtio[i]).wf() by {
            assert(virtio@[i].wf());
        }
        bus
    }

    /// Recompute level-triggered pending bits from device lines.
    fn refresh_plic(&mut self)
        requires
            old(self).wf(),
        ensures
            final(self).wf(),
            final(self)@ == old(self)@.sampled(),
    {
        let mut p: u32 = 0;
        proof {
            lemma_no_source();
        }
        if self.uart.irq() {
            p = with_source(p, UART_IRQ);
        }
        if self.rtc_irq {
            p = with_source(p, GOLDFISH_RTC_IRQ);
        }
        let mut i: usize = 0;
        while i < self.virtio.len()
            invariant
                i <= self.virtio@.len() <= 8,
                *self == *old(self),
                self.wf(),
                forall|j: int|
                    0 <= j < 32 ==> #[trigger] source_bit(p, j) == ((j == UART_IRQ
                        && self@.uart.irq()) || (j == GOLDFISH_RTC_IRQ && self@.rtc_irq) || (
                    VIRTIO_IRQ_BASE <= j < VIRTIO_IRQ_BASE + i && self@.virtio[j
                        - VIRTIO_IRQ_BASE].int_status != 0)),
            decreases self.virtio@.len() - i,
        {
            assert(self@.virtio[i as int] == self.virtio@[i as int]@);
            if self.virtio[i].irq_pending() {
                p = with_source(p, VIRTIO_IRQ_BASE + i as u32);
            }
            i = i + 1;
        }
        // Keep already-claimed-but-still-asserted lines out of `pending`
        // (they re-assert after `complete`); level sources naturally re-set.
        self.plic.set_pending(p);
        assert(sources(p) =~= Seq::new(32, |i: int| old(self)@.line(i)));
    }

    /// The interrupts that the devices assert to the hart.
    pub fn irq_lines(&mut self) -> (lines: u64)
        requires
            old(self).wf(),
        ensures
            final(self).wf(),
            final(self)@ == old(self)@.sampled(),
            lines == old(self)@.sampled().irq_mask(),
    {
        self.refresh_plic();
        let mut lines: u64 = 0;
        if !self.direct_sbi && self.mtime >= self.deadline {
            lines = lines + IRQ_MTIP;
        }
        if self.msip {
            lines = lines + IRQ_MSIP;
        }
        if self.plic.pending_ctx(0) {
            lines = lines + IRQ_MEIP;
        }
        if self.plic.pending_ctx(1) {
            lines = lines + IRQ_SEIP;
        }
        lines
    }

    /// Set the time.
    pub(crate) fn set_mtime(&mut self, mtime: u64)
        requires
            old(self).wf(),
        ensures
            final(self).wf(),
            final(self)@ == (BusView { mtime, ..old(self)@ }),
    {
        self.mtime = mtime;
    }

    /// Set the time at which the timer fires.
    pub(crate) fn set_deadline(&mut self, deadline: u64)
        requires
            old(self).wf(),
        ensures
            final(self).wf(),
            final(self)@ == (BusView { deadline, ..old(self)@ }),
    {
        self.deadline = deadline;
    }

    /// Number the host requests of every device from `first` on.
    pub fn number_requests_from(&mut self, first: u64)
        requires
            old(self).wf(),
        ensures
            final(self).wf(),
            final(self)@ == (BusView {
                virtio: old(self)@.virtio.map_values(
                    |dev: DeviceView| DeviceView { next_id: first, ..dev },
                ),
                ..old(self)@
            }),
    {
        let mut i: usize = 0;
        while i < self.virtio.len()
            invariant
                self.wf(),
                i <= self.virtio@.len(),
                self.virtio@.len() == old(self).virtio@.len(),
                self@ == (BusView { virtio: self@.virtio, ..old(self)@ }),
                forall|k: int|
                    0 <= k < self@.virtio.len() ==> #[trigger] self@.virtio[k] == if k < i {
                        DeviceView { next_id: first, ..old(self)@.virtio[k] }
                    } else {
                        old(self)@.virtio[k]
                    },
            decreases self.virtio@.len() - i,
        {
            let ghost before = self@;
            assert(self@.virtio[i as int] == self.virtio@[i as int]@);
            let mut dev = self.virtio.remove(i);
            dev.number_from(first);
            self.virtio.insert(i, dev);
            assert(self@.virtio =~= before.virtio.update(i as int, dev@));
            i = i + 1;
        }
        assert(self@.virtio =~= old(self)@.virtio.map_values(
            |dev: DeviceView| DeviceView { next_id: first, ..dev },
        ));
    }

    /// A number that no host request of this bus has had: the greatest that a
    /// device would give next, and at least 1.
    pub fn next_request_number(&self) -> (next: u64)
        requires
            self.wf(),
        ensures
            next >= 1,
            forall|i: int|
                0 <= i < self@.virtio.len() ==> (#[trigger] self@.virtio[i]).next_id <= next,
            next == 1 || exists|i: int|
                0 <= i < self@.virtio.len() && (#[trigger] self@.virtio[i]).next_id == next,
    {
        let mut next: u64 = 1;
        let mut i: usize = 0;
        while i < self.virtio.len()
            invariant
                self.wf(),
                i <= self.virtio@.len(),
                next >= 1,
                forall|k: int| 0 <= k < i ==> (#[trigger] self@.virtio[k]).next_id <= next,
                next == 1 || exists|k: int|
                    0 <= k < i && (#[trigger] self@.virtio[k]).next_id == next,
            decreases self.virtio@.len() - i,
        {
            assert(self@.virtio[i as int] == self.virtio@[i as int]@);
            let number: u64 = self.virtio[i].next_number();
            if number > next {
                next = number;
            }
            i = i + 1;
        }
        next
    }

    /// Turn the machine off.
    pub(crate) fn set_off(&mut self)
        requires
            old(self).wf(),
        ensures
            final(self).wf(),
            final(self)@ == (BusView { power_off: true, ..old(self)@ }),
    {
        self.power_off = true;
    }

    /// Transmit one console byte.
    pub(crate) fn put_char(&mut self, byte: u8)
        requires
            old(self).wf(),
        ensures
            final(self).wf(),
            final(self)@ == old(self)@.printed(byte),
    {
        self.uart.write(0, byte);
    }

    /// Drain UART output (host console).
    pub fn uart_take(&mut self) -> (out: Vec<u8>)
        requires
            old(self).wf(),
        ensures
            final(self).wf(),
            out@ == old(self)@.uart.tx,
            final(self)@ == old(self)@.taken(),
    {
        self.uart.take_output()
    }

    /// Feed console input to the guest UART.
    pub fn uart_input(&mut self, bytes: &[u8])
        requires
            old(self).wf(),
        ensures
            final(self).wf(),
            final(self)@ == old(self)@.fed(bytes@),
    {
        self.uart.input(bytes);
    }

    /// Mark the page at `pa` as one that backs compiled code.
    pub fn jit_mark_page(&mut self, pa: u64)
        requires
            old(self).wf(),
        ensures
            final(self).wf(),
            final(self)@ == match old(self)@.mem.pages.page_of(pa) {
                Some(page) => BusView {
                    mem: Memory {
                        pages: JitPages {
                            marked: old(self)@.mem.pages.marked.update(page, true),
                            ..old(self)@.mem.pages
                        },
                        ..old(self)@.mem
                    },
                    ..old(self)@
                },
                None => old(self)@,
            },
    {
        self.jit.mark_address(pa);
    }

    /// Whether `page` backs compiled code.
    pub fn jit_page_marked(&self, page: u64) -> (marked: bool)
        requires
            self.wf(),
        ensures
            marked == (page < self@.mem.pages.marked.len() && self@.mem.pages.marked[page as int]),
    {
        self.jit.page_marked(page)
    }

    /// Forget that `page` backs compiled code.
    pub fn jit_unmark_page(&mut self, page: u64)
        requires
            old(self).wf(),
        ensures
            final(self).wf(),
            final(self)@ == if page < old(self)@.mem.pages.marked.len() {
                BusView {
                    mem: Memory {
                        pages: JitPages {
                            marked: old(self)@.mem.pages.marked.update(page as int, false),
                            ..old(self)@.mem.pages
                        },
                        ..old(self)@.mem
                    },
                    ..old(self)@
                }
            } else {
                old(self)@
            },
    {
        self.jit.unmark_page(page);
    }

    /// Drain dirty physical RAM page numbers in first-write order.
    pub fn jit_take_dirty(&mut self) -> (pages: Vec<u64>)
        requires
            old(self).wf(),
        ensures
            final(self).wf(),
            pages@ == old(self)@.mem.pages.dirty,
            final(self)@ == (BusView {
                mem: Memory {
                    pages: JitPages { dirty: Seq::<u64>::empty(), ..old(self)@.mem.pages },
                    ..old(self)@.mem
                },
                ..old(self)@
            }),
    {
        self.jit.take_dirty()
    }

    /// Whether any page of compiled code was written since the last drain.
    pub fn jit_has_dirty(&self) -> (dirty: bool)
        requires
            self.wf(),
        ensures
            dirty == (self@.mem.pages.dirty.len() > 0),
    {
        self.jit.has_dirty()
    }

    /// Whether `page` was written since the last drain.
    pub fn jit_page_dirty(&self, page: u64) -> (dirty: bool)
        requires
            self.wf(),
        ensures
            dirty == self@.mem.pages.dirty.contains(page),
    {
        self.jit.is_dirty(page)
    }

    /// The write generation of `page`.
    pub fn jit_page_generation(&self, page: u64) -> (generation: Option<u64>)
        requires
            self.wf(),
        ensures
            generation == if page < self@.mem.pages.generation.len() {
                Some(self@.mem.pages.generation[page as int])
            } else {
                None
            },
    {
        self.jit.page_generation(page)
    }

    /// Load of `n` bytes.
    pub fn read(&mut self, addr: u64, n: usize) -> (outcome: BusRead)
        requires
            old(self).wf(),
            n == 1 || n == 2 || n == 4 || n == 8,
        ensures
            final(self).wf(),
            final(self)@ == old(self)@.loaded(addr, n as nat),
            match guest_value(old(self)@.mem.ram, RAM_BASE, addr as int, n as int) {
                Some(value) => outcome == BusRead::Value(value as u64),
                None => match region_of(addr) {
                    Region::Test => outcome == BusRead::Value(0),
                    Region::Clint(off) => outcome == BusRead::Value(
                        (old(self)@.clint(off) as nat % byte_span(n as nat)) as u64,
                    ),
                    Region::Plic(off) => outcome is Value && match PlicView::claim_context(off) {
                        Some(ctx) => outcome->Value_0 == old(self)@.plic.best(ctx),
                        None => exists|word: u32| #[trigger]
                            plic_word(old(self)@.plic, off, word) && outcome->Value_0 == word as nat
                                % byte_span(n as nat),
                    },
                    Region::Uart(off) => outcome == BusRead::Value(
                        old(self)@.uart.register(off) as u64,
                    ),
                    Region::Rtc(off) => outcome == BusRead::Rtc(off),
                    Region::Virtio(i, off) => outcome == if i < old(self)@.virtio.len() {
                        BusRead::Value(
                            (old(self)@.virtio[i as int].register(
                                off,
                                if n < 4 {
                                    n as int
                                } else {
                                    4
                                },
                            ) % byte_span(n as nat)) as u64,
                        )
                    } else {
                        BusRead::Fault
                    },
                    Region::Unmapped => outcome == BusRead::Fault,
                },
            },
    {
        proof {
            crate::bytes::lemma_byte_spans();
        }
        if let Some(range) = checked_ram_range(self.ram.len(), RAM_BASE, addr, n) {
            return BusRead::Value(read_le(self.ram.as_slice(), range.start, n));
        }
        match select(addr) {
            Region::Test => BusRead::Value(0),
            Region::Clint(off) => {
                let word: u64 = if off == 0 {
                    if self.msip {
                        1
                    } else {
                        0
                    }
                } else if off == 0x4000 {
                    self.deadline
                } else if off == 0xbff8 {
                    self.mtime
                } else {
                    0
                };
                BusRead::Value(narrowed(word, n))
            },
            Region::Plic(off) => {
                let word: u32 = self.plic.read(off);
                assert(PlicView::claim_context(off) is None ==> plic_word(
                    old(self)@.plic,
                    off,
                    word,
                ));
                BusRead::Value(narrowed(word as u64, n))
            },
            Region::Uart(off) => {
                let byte: u8 = self.uart.read(off);
                BusRead::Value(byte as u64)
            },
            Region::Rtc(off) => BusRead::Rtc(off),
            Region::Virtio(slot, off) => {
                let i: usize = slot as usize;
                if i < self.virtio.len() {
                    assert(self@.virtio[i as int] == self.virtio@[i as int]@);
                    let mut dev = self.virtio.remove(i);
                    let word: u32 = dev.read_sized(off, n as u32);
                    self.virtio.insert(i, dev);
                    assert(self.virtio@ =~= old(self).virtio@);
                    BusRead::Value(narrowed(word as u64, n))
                } else {
                    BusRead::Fault
                }
            },
            Region::Unmapped => BusRead::Fault,
        }
    }

    fn mmio_write(&mut self, addr: u64, val: u64) -> (outcome: BusWrite)
        requires
            old(self).wf(),
        ensures
            final(self).wf(),
            final(self)@ == old(self)@.mmio_written(addr, val),
            outcome == match region_of(addr) {
                Region::Rtc(off) => BusWrite::Rtc(off, (val % 0x1_0000_0000) as u32),
                Region::Unmapped => BusWrite::Fault,
                _ => BusWrite::Done,
            },
            old(self)@.mem.is_tracked() ==> old(self)@.mem.observed_in(final(self)@.mem),
    {
        match select(addr) {
            Region::Test => {
                // sifive,test: 0x5555 poweroff, 0x7777 reboot, 0x3333 fail
                let code: u64 = val % 0x1_0000;
                if code == 0x5555 || code == 0x7777 || code == 0x3333 {
                    self.power_off = true;
                }
                BusWrite::Done
            },
            Region::Clint(off) => {
                if off == 0 {
                    self.msip = val % 2 == 1;
                } else if off == 0x4000 {
                    self.deadline = val;
                }
                BusWrite::Done
            },
            Region::Plic(off) => {
                self.plic.write(off, (val % 0x1_0000_0000) as u32);
                BusWrite::Done
            },
            Region::Uart(off) => {
                self.uart.write(off, (val % 0x100) as u8);
                BusWrite::Done
            },
            Region::Rtc(off) => BusWrite::Rtc(off, (val % 0x1_0000_0000) as u32),
            Region::Virtio(slot, off) => {
                let i: usize = slot as usize;
                if i < self.virtio.len() {
                    assert(self@.virtio[i as int] == self.virtio@[i as int]@);
                    let mut dev = self.virtio.remove(i);
                    if let Some(q) = dev.write(off, (val % 0x1_0000_0000) as u32) {
                        dev.process(
                            q as usize,
                            self.ram.as_mut_slice(),
                            RAM_BASE,
                            &mut self.jit,
                        );
                    }
                    self.virtio.insert(i, dev);
                    assert(self@.virtio =~= old(self)@.virtio.update(i as int, dev@));
                }
                BusWrite::Done
            },
            Region::Unmapped => BusWrite::Fault,
        }
    }

    /// Store of the low `n` bytes of `val`.
    pub fn write(&mut self, addr: u64, val: u64, n: usize) -> (outcome: BusWrite)
        requires
            old(self).wf(),
            n == 1 || n == 2 || n == 4 || n == 8,
            val < byte_span(n as nat),
        ensures
            final(self).wf(),
            final(self)@ == old(self)@.stored(addr, val, n as nat),
            outcome == if in_ram(old(self)@.mem.ram.len(), RAM_BASE, addr as int, n as int) {
                BusWrite::Done
            } else {
                match region_of(addr) {
                    Region::Rtc(off) => BusWrite::Rtc(off, (val % 0x1_0000_0000) as u32),
                    Region::Unmapped => BusWrite::Fault,
                    _ => BusWrite::Done,
                }
            },
            !in_ram(old(self)@.mem.ram.len(), RAM_BASE, addr as int, n as int)
                && old(self)@.mem.is_tracked() ==> old(self)@.mem.observed_in(final(self)@.mem),
    {
        self.jit.note_store(addr);
        if let Some(range) = checked_ram_range(self.ram.len(), RAM_BASE, addr, n) {
            let mut bytes: Vec<u8> = Vec::new();
            push_le(&mut bytes, val, n);
            proof {
                crate::bytes::lemma_le_bytes_len(val as nat, n as nat);
                assert(bytes@ =~= le_bytes(val as nat, n as nat));
            }
            write_at(self.ram.as_mut_slice(), range.start, bytes.as_slice());
            return BusWrite::Done;
        }
        let ghost noted = self@.mem;
        let outcome = self.mmio_write(addr, val);
        proof {
            let before = old(self)@.mem;
            if before.is_tracked() {
                assert forall|p: u64| #[trigger]
                    before.pages.dirty.contains(p) implies noted.pages.dirty.contains(p) by {
                    assert(noted.pages.dirty[before.pages.dirty.index_of(p)] == p);
                }
                lemma_observed_on(before, noted, self@.mem);
            }
        }
        outcome
    }

    /// The instruction word at `addr`, if it lies in RAM.
    pub fn fetch32_if_safe(&self, addr: u64) -> (word: Option<u32>)
        ensures
            match (word, guest_value(self@.mem.ram, RAM_BASE, addr as int, 4)) {
                (Some(a), Some(b)) => a == b,
                (None, None) => true,
                _ => false,
            },
    {
        match checked_ram_range(self.ram.len(), RAM_BASE, addr, 4) {
            Some(range) => {
                proof {
                    crate::bytes::lemma_byte_spans();
                    crate::bytes::lemma_le_value_bound(
                        self.ram@.subrange(range.start as int, range.start + 4),
                    );
                }
                Some(read_le(self.ram.as_slice(), range.start, 4) as u32)
            },
            None => None,
        }
    }

    /// What to add to virtual address `va` for the byte of RAM that physical
    /// address `pa` selects, counted from the start of RAM and wrapping. `None`
    /// if the page is not all in RAM, or the access is a store to a page of
    /// compiled code.
    pub fn jit_fast_off(&self, va: u64, pa: u64, store: bool) -> (off: Option<i64>)
        requires
            self.wf(),
        ensures
            off is Some <==> RAM_BASE <= pa && (pa as int / 4096) * 4096 + 4095 < RAM_BASE
                + self@.mem.ram.len() && !(store && match self@.mem.pages.page_of(pa) {
                Some(page) => self@.mem.pages.marked[page],
                None => false,
            }),
            off matches Some(off) ==> (va + off) % 0x1_0000_0000_0000_0000 == pa - RAM_BASE,
    {
        if pa < RAM_BASE {
            return None;
        }
        let ram_len: u64 = self.ram.len() as u64;
        let page_offset: u64 = (pa - RAM_BASE) / 4096 * 4096;
        if ram_len < 4096 || page_offset > ram_len - 4096 {
            return None;
        }
        if store && self.jit.address_marked(pa) {
            return None;
        }
        let raw: u64 = (pa - RAM_BASE).wrapping_sub(va);
        let off: i64 = raw as i64;
        proof {
            lemma_wrap(va, pa - RAM_BASE, raw, off);
        }
        Some(off)
    }

    /// Poll every ready virtqueue, servicing any buffers the guest made
    /// available. QueueNotify normally drives this, but polling each slice
    /// recovers from any missed notification (a synchronous device model can
    /// otherwise lose a wakeup and hang the guest waiting on completed I/O).
    pub fn poll_virtio(&mut self)
        requires
            old(self).wf(),
        ensures
            final(self).wf(),
            ({
                let (virtio, mem) = polled(
                    old(self)@.virtio,
                    old(self)@.mem,
                    old(self)@.virtio.len() as int,
                );
                final(self)@ == (BusView { virtio, mem, ..old(self)@ })
            }),
            old(self)@.mem.is_tracked() ==> old(self)@.mem.observed_in(final(self)@.mem),
    {
        let mut i: usize = 0;
        while i < self.virtio.len()
            invariant
                self.wf(),
                i <= self.virtio@.len(),
                self.virtio@.len() == old(self).virtio@.len(),
                ({
                    let (virtio, mem) = polled(old(self)@.virtio, old(self)@.mem, i as int);
                    self@ == (BusView { virtio, mem, ..old(self)@ })
                }),
                old(self)@.mem.is_tracked() ==> old(self)@.mem.observed_in(self@.mem),
            decreases self.virtio@.len() - i,
        {
            let ghost before = self@;
            assert(self@.virtio[i as int] == self.virtio@[i as int]@);
            let mut dev = self.virtio.remove(i);
            dev.process(0, self.ram.as_mut_slice(), RAM_BASE, &mut self.jit);
            let ghost between = memory(self.ram@, self.jit);
            dev.process(1, self.ram.as_mut_slice(), RAM_BASE, &mut self.jit);
            self.virtio.insert(i, dev);
            assert(self@.virtio =~= before.virtio.update(i as int, dev@));
            proof {
                if old(self)@.mem.is_tracked() {
                    lemma_observed_on(old(self)@.mem, before.mem, between);
                    lemma_observed_on(old(self)@.mem, between, self@.mem);
                }
            }
            i = i + 1;
        }
    }
}

/// Whether `word` is the interrupt controller's register at `off`, for the
/// registers whose reads have no effect.
pub open spec fn plic_word(plic: PlicView, off: u64, word: u32) -> bool {
    if off == 0x1000 {
        sources(word) == plic.pending
    } else {
        match PlicView::enable_context(off) {
            Some(ctx) => sources(word) == plic.enable[ctx],
            None => word == plic.register(off),
        }
    }
}

proof fn lemma_wrap(va: u64, target: int, raw: u64, off: i64)
    requires
        0 <= target <= u64::MAX,
        raw == vstd::wrapping::u64_specs::wrapping_sub(target as u64, va),
        off == raw as i64,
    ensures
        (va + off) % 0x1_0000_0000_0000_0000 == target,
{
    assert(raw < 0x8000_0000_0000_0000 ==> raw as i64 == raw) by (bit_vector);
    assert(raw >= 0x8000_0000_0000_0000 ==> raw as i64 == raw - 0x1_0000_0000_0000_0000)
        by (bit_vector);
}

/// The low `n` bytes of a register.
fn narrowed(word: u64, n: usize) -> (r: u64)
    requires
        n == 1 || n == 2 || n == 4 || n == 8,
    ensures
        r == word as nat % byte_span(n as nat),
{
    proof {
        crate::bytes::lemma_byte_spans();
    }
    if n == 1 {
        word % 0x100
    } else if n == 2 {
        word % 0x1_0000
    } else if n == 4 {
        word % 0x1_0000_0000
    } else {
        word
    }
}

// ---- laws ----------------------------------------------------------------

/// One thing that happens to a bus.
pub enum BusCall {
    /// A store of the low bytes of a value.
    Store(u64, u64, nat),
    /// A load.
    Load(u64, nat),
    /// Firmware prints a byte on the console.
    Print(u8),
    /// The host feeds console input.
    Input(Seq<u8>),
    /// Anything that leaves the UART alone: what the rest of the bus is then.
    Elsewhere(BusView),
}

impl BusView {
    /// The bus after a call.
    pub open spec fn after(self, call: BusCall) -> BusView {
        match call {
            BusCall::Store(addr, val, n) => self.stored(addr, val, n),
            BusCall::Load(addr, n) => self.loaded(addr, n),
            BusCall::Print(byte) => self.printed(byte),
            BusCall::Input(bytes) => self.fed(bytes),
            BusCall::Elsewhere(rest) => BusView { uart: self.uart, ..rest },
        }
    }

    /// The bus after a run of calls.
    pub open spec fn after_all(self, calls: Seq<BusCall>) -> BusView
        decreases calls.len(),
    {
        if calls.len() == 0 {
            self
        } else {
            self.after_all(calls.drop_last()).after(calls.last())
        }
    }

    /// The byte that a call writes to the transmit register of the UART, which
    /// is register 0 unless the divisor latches are selected.
    pub open spec fn transmits(self, call: BusCall) -> Seq<u8> {
        match call {
            BusCall::Store(addr, val, n) if !self.uart.dlab() && region_of(addr) == Region::Uart(0)
                && !in_ram(self.mem.ram.len(), RAM_BASE, addr as int, n as int) => seq![
                (val % 0x100) as u8,
            ],
            BusCall::Print(byte) if !self.uart.dlab() => seq![byte],
            _ => Seq::empty(),
        }
    }

    /// The bytes that a run of calls writes to the transmit register, in order.
    pub open spec fn transmits_in(self, calls: Seq<BusCall>) -> Seq<u8>
        decreases calls.len(),
    {
        if calls.len() == 0 {
            Seq::empty()
        } else {
            self.transmits_in(calls.drop_last()) + self.after_all(calls.drop_last()).transmits(
                calls.last(),
            )
        }
    }
}

proof fn lemma_call_transmits(bus: BusView, call: BusCall)
    ensures
        bus.after(call).uart.tx == bus.uart.tx + bus.transmits(call),
{
    let sent = bus.transmits(call);
    if sent.len() == 0 {
        assert(bus.uart.tx + sent =~= bus.uart.tx);
    } else {
        assert(bus.uart.tx + sent =~= bus.uart.tx.push(sent[0]));
    }
    match call {
        BusCall::Store(addr, val, n) => {
            if !in_ram(bus.mem.ram.len(), RAM_BASE, addr as int, n as int) {
                lemma_mmio_transmits(bus, addr, val, n);
            }
        },
        _ => {},
    }
}

/// A device write changes what the UART has transmitted only where it writes the
/// transmit register.
proof fn lemma_mmio_transmits(bus: BusView, addr: u64, val: u64, n: nat)
    requires
        !in_ram(bus.mem.ram.len(), RAM_BASE, addr as int, n as int),
    ensures
        bus.stored(addr, val, n).uart == match region_of(addr) {
            Region::Uart(off) => bus.uart.written(off, (val % 0x100) as u8),
            _ => bus.uart,
        },
{
}

proof fn lemma_run_transmits(bus: BusView, calls: Seq<BusCall>)
    ensures
        bus.after_all(calls).uart.tx == bus.uart.tx + bus.transmits_in(calls),
    decreases calls.len(),
{
    if calls.len() == 0 {
        assert(bus.uart.tx + bus.transmits_in(calls) =~= bus.uart.tx);
    } else {
        lemma_run_transmits(bus, calls.drop_last());
        let before = bus.after_all(calls.drop_last());
        let call = calls.last();
        lemma_call_transmits(before, call);
        assert(bus.uart.tx + bus.transmits_in(calls.drop_last()) + before.transmits(call)
            =~= bus.uart.tx + bus.transmits_in(calls));
    }
}

/// The host collects exactly the bytes that were written to the transmit register
/// since it last collected them, in order. Collecting them again at once gives
/// nothing. Console input that waits, and everything else, stays.
pub proof fn law_console_output_is_what_was_written(bus: BusView, calls: Seq<BusCall>)
    ensures
        ({
            let end = bus.taken().after_all(calls);
            &&& end.uart.tx == bus.taken().transmits_in(calls)
            &&& end.taken().uart.tx == Seq::<u8>::empty()
            &&& end.taken().uart.rx == end.uart.rx
            &&& end.taken() == (BusView { uart: end.taken().uart, ..end })
        }),
{
    lemma_run_transmits(bus.taken(), calls);
    assert(bus.taken().uart.tx + bus.taken().transmits_in(calls) =~= bus.taken().transmits_in(
        calls,
    ));
}

} // verus!
