//! Verified bring-up logic for the PL011 UART of a Raspberry Pi class board.
//!
//! Every hardware interaction is expressed as a step of a state machine: a
//! machine names the next bus operation (`Action`), the platform layer
//! performs it and hands back what it read. Each machine records the
//! operations performed so far as a ghost trace, and its contract states
//! which traces it can produce.
use vstd::prelude::*;

pub mod regs;
pub mod bus;
pub mod mailbox;
pub mod uart;
pub mod bringup;
pub mod console;
