//! The serial peripheral bus of the board, and the flash on it.

pub mod chip;
pub mod driver;
pub mod master;
pub mod nor;
pub mod speed;
