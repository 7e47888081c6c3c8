//! What a console driver can rely on of the UART's registers.

use vstd::prelude::*;

use crate::uart::UartView;

verus! {

/// The line status says whether input waits, and that the transmitter is always
/// ready; a receive register with nothing in it reads zero.
pub proof fn law_line_status_says_whether_input_waits(uart: UartView)
    ensures
        uart.rx.len() > 0 ==> uart.register(5) == 0x61,
        uart.rx.len() == 0 ==> uart.register(5) == 0x60,
        uart.rx.len() == 0 ==> uart.register(0) == 0,
        uart.after_read(5) == uart,
{
}

/// A byte written to the transmit register goes out behind those before it; with
/// the divisor latches selected nothing is sent or received.
pub proof fn law_written_byte_goes_out(uart: UartView, val: u8)
    ensures
        uart.lcr < 128 ==> uart.written(0, val).tx == uart.tx.push(val),
        uart.written(0, val).rx == uart.rx,
        uart.lcr >= 128 ==> uart.written(0, val) == uart && uart.after_read(0) == uart,
        uart.lcr < 128 && uart.rx.len() > 0 ==> uart.register(0) == uart.rx[0]
            && uart.after_read(0) == (UartView { rx: uart.rx.drop_first(), ..uart }),
{
}

/// The control registers read back what was written to them, and writing them
/// moves no data.
pub proof fn law_control_registers_read_back(uart: UartView, off: u64, val: u8)
    requires
        off == 3 || off == 4 || off == 7 || (off == 1 && uart.lcr < 128),
    ensures
        uart.written(off, val).register(off) == val,
        uart.written(off, val).tx == uart.tx,
        uart.written(off, val).rx == uart.rx,
        uart.after_read(off) == uart,
{
}

/// Input interrupts while it waits, if bit 0 of the enable register asks for it,
/// and says so ahead of an empty transmitter; the line is up exactly while one of
/// the two is enabled and due.
pub proof fn law_uart_interrupts_for_what_is_enabled(uart: UartView)
    ensures
        uart.irq() <==> (uart.ier % 2 == 1 && uart.rx.len() > 0) || (uart.ier / 2 % 2 == 1
            && uart.thre_ip),
        uart.ier % 2 == 1 && uart.rx.len() > 0 ==> uart.register(2) == 0xc4 && uart.after_read(2)
            == uart,
        !(uart.ier % 2 == 1 && uart.rx.len() > 0) && uart.thre_ip ==> uart.register(2) == 0xc2
            && !uart.after_read(2).thre_ip,
        !uart.irq() && !uart.thre_ip ==> uart.register(2) == 0xc1,
{
}

/// A byte that goes out interrupts, where bit 1 of the enable register asks for
/// it, since the transmitter is empty again at once.
pub proof fn law_sent_byte_interrupts(uart: UartView, val: u8)
    requires
        uart.lcr < 128,
    ensures
        uart.ier / 2 % 2 == 1 ==> uart.written(0, val).irq(),
        uart.ier / 2 % 2 == 0 ==> uart.written(0, val).thre_ip == uart.thre_ip,
{
}

} // verus!
