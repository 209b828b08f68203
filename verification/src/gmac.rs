//! The Ethernet controller of the board.

pub mod driver;
pub mod engine;
pub mod irq;
pub mod mac;
pub mod phy;
pub mod queue;
pub mod regs;
