//! The advanced interrupt architecture: message interrupt files and the
//! controller that turns wired interrupts into messages.

pub mod aplic;
pub mod config;
pub mod imsic;
pub mod layout;
pub mod probe;
pub mod registers;
pub mod vector;
