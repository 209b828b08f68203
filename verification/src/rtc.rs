//! The real-time clock of the board.

pub mod calendar;
pub mod clock;
pub mod driver;
pub mod face;
