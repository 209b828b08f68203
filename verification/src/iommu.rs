//! The translation of device addresses.

pub mod bits;
pub mod controller;
pub mod device;
pub mod directory;
pub mod domain;
pub mod page_table;
pub mod probe;
pub mod queue;
pub mod radix;
pub mod unit;
pub mod words;
