//! Minimal ns16550 (8250) UART: enough for OpenSBI + kernel console.

use std::collections::VecDeque;
use vstd::prelude::*;

verus! {

/// Minimal ns16550 (8250) UART.
pub struct Uart {
    ier: u8,  // interrupt enable
    lcr: u8,
    mcr: u8,
    scr: u8,
    rx: VecDeque<u8>,
    tx_out: Vec<u8>,
    /// THR-empty interrupt pending (transmit is instant, so this tracks the
    /// 8250 THRE interrupt: armed when TX ints are enabled or a byte is sent,
    /// cleared when the guest reads IIR).
    thre_ip: bool,
}

/// The state of a [`Uart`].
#[verifier::ext_equal]
pub struct UartView {
    pub ier: u8,
    pub lcr: u8,
    pub mcr: u8,
    pub scr: u8,
    pub rx: Seq<u8>,
    pub tx: Seq<u8>,
    pub thre_ip: bool,
}

impl View for Uart {
    type V = UartView;

    closed spec fn view(&self) -> UartView {
        UartView {
            ier: self.ier,
            lcr: self.lcr,
            mcr: self.mcr,
            scr: self.scr,
            rx: self.rx@,
            tx: self.tx_out@,
            thre_ip: self.thre_ip,
        }
    }
}

impl UartView {
    /// The UART out of reset.
    pub open spec fn reset() -> UartView {
        UartView {
            ier: 0,
            lcr: 0,
            mcr: 0,
            scr: 0,
            rx: Seq::empty(),
            tx: Seq::empty(),
            thre_ip: false,
        }
    }

    /// Whether LCR bit 7 selects the divisor latches.
    pub open spec fn dlab(self) -> bool {
        self.lcr >= 0x80
    }

    /// Whether received data raises an interrupt.
    pub open spec fn rx_ready(self) -> bool {
        self.ier % 2 == 1 && self.rx.len() > 0
    }

    /// Whether the interrupt on an empty transmitter is enabled in `ier`.
    pub open spec fn thre_enabled(ier: u8) -> bool {
        ier / 2 % 2 == 1
    }

    /// UART interrupt line: RX-data (if enabled) or THR-empty (if enabled).
    pub open spec fn irq(self) -> bool {
        self.rx_ready() || (self.thre_ip && UartView::thre_enabled(self.ier))
    }

    /// The register at `off`.
    pub open spec fn register(self, off: u64) -> u8 {
        if off == 0 && !self.dlab() && self.rx.len() > 0 {
            self.rx[0]
        } else if off == 1 && !self.dlab() {
            self.ier
        } else if off == 2 {
            if self.rx_ready() {
                0xc4
            } else if self.thre_ip {
                0xc2
            } else {
                0xc1
            }
        } else if off == 3 {
            self.lcr
        } else if off == 4 {
            self.mcr
        } else if off == 5 {
            if self.rx.len() > 0 {
                0x61
            } else {
                0x60
            }
        } else if off == 6 {
            0xb0
        } else if off == 7 {
            self.scr
        } else {
            0
        }
    }

    /// The UART after a read at `off`: the receive buffer gives up a byte, and
    /// the interrupt identification acknowledges an empty transmitter unless
    /// received data outranks it.
    pub open spec fn after_read(self, off: u64) -> UartView {
        if off == 0 && !self.dlab() && self.rx.len() > 0 {
            UartView { rx: self.rx.drop_first(), ..self }
        } else if off == 2 && !self.rx_ready() {
            UartView { thre_ip: false, ..self }
        } else {
            self
        }
    }

    /// The UART after a write of `val` at `off`. A byte is transmitted at once,
    /// which empties the transmitter again, and enabling the interrupt on an
    /// empty transmitter raises it.
    pub open spec fn written(self, off: u64, val: u8) -> UartView {
        if off == 0 && !self.dlab() {
            UartView {
                tx: self.tx.push(val),
                thre_ip: self.thre_ip || UartView::thre_enabled(self.ier),
                ..self
            }
        } else if off == 1 && !self.dlab() {
            UartView {
                ier: val,
                thre_ip: self.thre_ip || (UartView::thre_enabled(val) && !UartView::thre_enabled(
                    self.ier,
                )),
                ..self
            }
        } else if off == 3 {
            UartView { lcr: val, ..self }
        } else if off == 4 {
            UartView { mcr: val, ..self }
        } else if off == 7 {
            UartView { scr: val, ..self }
        } else {
            self
        }
    }
}

/// Console input is read back in order: a byte that was fed in while the
/// buffer was empty is the next byte that the guest reads, and is then gone.
pub proof fn law_input_is_read_in_order(uart: UartView, bytes: Seq<u8>)
    requires
        !uart.dlab(),
        uart.rx == bytes,
        bytes.len() > 0,
    ensures
        uart.register(0) == bytes[0],
        uart.after_read(0).rx == bytes.drop_first(),
        uart.after_read(0).tx == uart.tx,
{
}

/// Enabling the transmit interrupt raises the line at once, and reading the
/// interrupt identification lowers it again when no input waits.
pub proof fn law_transmit_interrupt(uart: UartView, ier: u8)
    requires
        !uart.dlab(),
        !UartView::thre_enabled(uart.ier),
        UartView::thre_enabled(ier),
        uart.rx.len() == 0,
    ensures
        uart.written(1, ier).irq(),
        uart.written(1, ier).register(2) == 0xc2,
        !uart.written(1, ier).after_read(2).irq(),
{
}

/// With its interrupts disabled the UART keeps its line low, whatever arrived or
/// was armed before.
pub proof fn law_disabled_interrupts_are_silent(uart: UartView)
    requires
        !uart.dlab(),
    ensures
        !uart.written(1, 0).irq(),
{
}

impl Uart {
    /// A UART out of reset.
    pub fn new() -> (uart: Uart)
        ensures
            uart@ == UartView::reset(),
    {
        Uart {
            ier: 0,
            lcr: 0,
            mcr: 0,
            scr: 0,
            rx: VecDeque::new(),
            tx_out: Vec::new(),
            thre_ip: false,
        }
    }

    /// Register read. Offsets (byte): 0 RBR/THR/DLL, 1 IER/DLM, 2 IIR/FCR,
    /// 3 LCR, 4 MCR, 5 LSR, 6 MSR, 7 SCR. DLAB (LCR bit7) selects divisor
    /// latches.
    pub fn read(&mut self, off: u64) -> (value: u8)
        ensures
            value == old(self)@.register(off),
            final(self)@ == old(self)@.after_read(off),
    {
        let dlab = self.lcr >= 0x80;
        if off == 0 && !dlab {
            match self.rx.pop_front() {
                Some(byte) => {
                    assert(self.rx@ =~= old(self).rx@.drop_first());
                    byte
                },
                None => 0,
            }
        } else if off == 1 && !dlab {
            self.ier
        } else if off == 2 {
            // IIR, highest-priority pending source first (FIFO bits 0xc0):
            // RX data available (0x04) outranks THR-empty (0x02). Reading
            // IIR acknowledges (clears) a pending THRE interrupt.
            if self.ier % 2 == 1 && self.rx.len() > 0 {
                0xc4
            } else if self.thre_ip {
                self.thre_ip = false;
                0xc2
            } else {
                0xc1
            }
        } else if off == 3 {
            self.lcr
        } else if off == 4 {
            self.mcr
        } else if off == 5 {
            // LSR: THR empty + TX empty always; DR if rx data.
            if self.rx.len() > 0 {
                0x61
            } else {
                0x60
            }
        } else if off == 6 {
            0xb0  // MSR: DCD+DSR+CTS

        } else if off == 7 {
            self.scr
        } else {
            0
        }
    }

    /// Register write.
    pub fn write(&mut self, off: u64, val: u8)
        ensures
            final(self)@ == old(self)@.written(off, val),
    {
        let dlab = self.lcr >= 0x80;
        if off == 0 && !dlab {
            // THR is transmitted instantly and empty again: re-arm the
            // THR-empty interrupt so interrupt-driven TX keeps flowing.
            self.tx_out.push(val);
            if self.ier / 2 % 2 == 1 {
                self.thre_ip = true;
            }
        } else if off == 1 && !dlab {
            let was: u8 = self.ier;
            self.ier = val;
            // Enabling the THR-empty interrupt raises it immediately (our
            // THR is always empty). Without this, the 8250 driver's
            // interrupt-driven TX / tty drain (e.g. bash's tcsetattr on the
            // console) blocks forever waiting for a THRE IRQ.
            if val / 2 % 2 == 1 && was / 2 % 2 == 0 {
                self.thre_ip = true;
            }
        } else if off == 3 {
            self.lcr = val;
        } else if off == 4 {
            self.mcr = val;
        } else if off == 7 {
            self.scr = val;
        }
    }

    /// UART interrupt line.
    pub fn irq(&self) -> (line: bool)
        ensures
            line == self@.irq(),
    {
        (self.ier % 2 == 1 && self.rx.len() > 0) || (self.thre_ip && self.ier / 2 % 2 == 1)
    }

    /// Drain transmitted bytes.
    pub fn take_output(&mut self) -> (out: Vec<u8>)
        ensures
            out@ == old(self)@.tx,
            final(self)@ == (UartView { tx: Seq::empty(), ..old(self)@ }),
    {
        let mut out: Vec<u8> = Vec::new();
        core::mem::swap(&mut out, &mut self.tx_out);
        out
    }

    /// Feed received bytes.
    pub fn input(&mut self, bytes: &[u8])
        ensures
            final(self)@ == (UartView { rx: old(self)@.rx + bytes@, ..old(self)@ }),
    {
        let mut i: usize = 0;
        assert(self.rx@ =~= old(self).rx@ + bytes@.subrange(0, 0));
        while i < bytes.len()
            invariant
                i <= bytes@.len(),
                self.rx@ == old(self).rx@ + bytes@.subrange(0, i as int),
                self@ == (UartView { rx: self.rx@, ..old(self)@ }),
            decreases bytes@.len() - i,
        {
            self.rx.push_back(bytes[i]);
            i = i + 1;
            assert(self.rx@ =~= old(self).rx@ + bytes@.subrange(0, i as int));
        }
        assert(bytes@.subrange(0, i as int) =~= bytes@);
    }
}

} // verus!
