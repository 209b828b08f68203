//! The platform-level interrupt controller.

pub mod binding;
pub mod config;
pub mod controller;

pub mod dispatch;
pub mod registers;
