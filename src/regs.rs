//! Register map of the peripherals used, as byte offsets from the board's
//! peripheral base, and the board profiles that fix that base.
use vstd::prelude::*;

verus! {

/// Offset of the GPIO block.
pub const GPIO_BASE: u32 = 0x20_0000;
/// GPIO pull-up/down control.
pub const GPPUD: u32 = GPIO_BASE + 0x94;
/// GPIO pull-up/down clock for pins 0..31.
pub const GPPUDCLK0: u32 = GPIO_BASE + 0x98;

/// Offset of the PL011 UART block.
pub const UART0_BASE: u32 = GPIO_BASE + 0x1000;
/// Data register.
pub const UART0_DR: u32 = UART0_BASE + 0x00;
/// Flag register.
pub const UART0_FR: u32 = UART0_BASE + 0x18;
/// Integer baud-rate divisor.
pub const UART0_IBRD: u32 = UART0_BASE + 0x24;
/// Fractional baud-rate divisor.
pub const UART0_FBRD: u32 = UART0_BASE + 0x28;
/// Line control.
pub const UART0_LCRH: u32 = UART0_BASE + 0x2C;
/// Control register.
pub const UART0_CR: u32 = UART0_BASE + 0x30;
/// Interrupt mask set/clear.
pub const UART0_IMSC: u32 = UART0_BASE + 0x38;
/// Interrupt clear.
pub const UART0_ICR: u32 = UART0_BASE + 0x44;

/// Offset of the VideoCore mailbox block.
pub const MBOX_BASE: u32 = 0xB880;
/// Mailbox read register.
pub const MBOX_READ: u32 = MBOX_BASE + 0x00;
/// Mailbox status register.
pub const MBOX_STATUS: u32 = MBOX_BASE + 0x18;
/// Mailbox write register.
pub const MBOX_WRITE: u32 = MBOX_BASE + 0x20;

/// Flag register: transmit FIFO full (bit 5).
pub const FR_TXFF: u32 = 0x20;
/// Flag register: receive FIFO empty (bit 4).
pub const FR_RXFE: u32 = 0x10;
/// Mailbox status: no room for a request (bit 31).
pub const MBOX_FULL: u32 = 0x8000_0000;
/// Mailbox status: no response waiting (bit 30).
pub const MBOX_EMPTY: u32 = 0x4000_0000;

/// The two UART pins, 14 and 15, in `GPPUDCLK0`.
pub const UART_PINS: u32 = 0xC000;
/// Every interrupt bit of `UART0_ICR` (bits 0..10).
pub const ICR_ALL: u32 = 0x7FF;
/// Integer divisor for 115200 baud from a 3 MHz reference clock.
pub const BAUD_INTEGER: u32 = 1;
/// Fractional divisor for 115200 baud from a 3 MHz reference clock.
pub const BAUD_FRACTION: u32 = 40;
/// FIFOs enabled (bit 4), eight data bits (bits 5 and 6), no parity, one stop bit.
pub const LCRH_8N1_FIFO: u32 = 0x70;
/// Interrupt sources masked: bits 1 and 4..10.
pub const IMSC_ALL: u32 = 0x7F2;
/// UART enable (bit 0), transmit enable (bit 8), receive enable (bit 9).
pub const CR_ENABLE: u32 = 0x301;
/// Settle time between the pull-up/down writes, in loop iterations.
pub const SETTLE_CYCLES: u32 = 150;

/// Whether `offset` names a register of the map.
pub open spec fn is_register(offset: u32) -> bool {
    offset == GPPUD || offset == GPPUDCLK0 || offset == UART0_DR || offset == UART0_FR
        || offset == UART0_IBRD || offset == UART0_FBRD || offset == UART0_LCRH
        || offset == UART0_CR || offset == UART0_IMSC || offset == UART0_ICR
        || offset == MBOX_READ || offset == MBOX_STATUS || offset == MBOX_WRITE
}

/// Whether `offset` names a register of the map.
pub fn is_register_offset(offset: u32) -> (r: bool)
    ensures
        r == is_register(offset),
{
    offset == GPPUD || offset == GPPUDCLK0 || offset == UART0_DR || offset == UART0_FR
        || offset == UART0_IBRD || offset == UART0_FBRD || offset == UART0_LCRH
        || offset == UART0_CR || offset == UART0_IMSC || offset == UART0_ICR
        || offset == MBOX_READ || offset == MBOX_STATUS || offset == MBOX_WRITE
}

/// The supported boards. Exactly one is chosen for a build.
#[derive(Clone, Copy, Debug, PartialEq, Eq, Structural)]
pub enum BoardProfile {
    RaspberryPi0,
    RaspberryPi1,
    RaspberryPi2,
    RaspberryPi3,
    RaspberryPi4,
    RaspberryPi5,
}

impl BoardProfile {
    pub open spec fn spec_base_address(self) -> u32 {
        match self {
            BoardProfile::RaspberryPi0 | BoardProfile::RaspberryPi1 => 0x2000_0000,
            BoardProfile::RaspberryPi2 | BoardProfile::RaspberryPi3 => 0x3F00_0000,
            BoardProfile::RaspberryPi4 => 0xFE00_0000,
            BoardProfile::RaspberryPi5 => 0x7C00_0000,
        }
    }

    pub open spec fn spec_requires_clock_negotiation(self) -> bool {
        match self {
            BoardProfile::RaspberryPi0 | BoardProfile::RaspberryPi1
            | BoardProfile::RaspberryPi2 => false,
            _ => true,
        }
    }

    /// Physical base address of the peripheral window.
    pub fn base_address(&self) -> (r: u32)
        ensures
            r == self.spec_base_address(),
    {
        match self {
            BoardProfile::RaspberryPi0 | BoardProfile::RaspberryPi1 => 0x2000_0000,
            BoardProfile::RaspberryPi2 | BoardProfile::RaspberryPi3 => 0x3F00_0000,
            BoardProfile::RaspberryPi4 => 0xFE00_0000,
            BoardProfile::RaspberryPi5 => 0x7C00_0000,
        }
    }

    /// Whether the UART reference clock must be set through the mailbox.
    pub fn requires_clock_negotiation(&self) -> (r: bool)
        ensures
            r == self.spec_requires_clock_negotiation(),
    {
        match self {
            BoardProfile::RaspberryPi0 | BoardProfile::RaspberryPi1
            | BoardProfile::RaspberryPi2 => false,
            _ => true,
        }
    }

    /// Physical address of the register at `offset`.
    pub fn register_address(&self, offset: u32) -> (r: u32)
        requires
            is_register(offset),
        ensures
            r == self.spec_base_address() + offset,
    {
        self.base_address() + offset
    }
}

} // verus!
