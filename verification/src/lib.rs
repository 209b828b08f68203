//! Verified logic of a set of platform drivers.
//!
//! Every module computes on plain values: bytes of a packet, values read from
//! registers, ranges out of a device tree. What touches a device (volatile
//! loads and stores, delays, locks) lies outside this crate and is driven by
//! the values and actions that these modules return.

pub mod aia;
pub mod align;
pub mod bytes;
pub mod gmac;
pub mod i2c;
pub mod iommu;
pub mod lifecycle;
pub mod net;
pub mod pci;
pub mod platform;
pub mod plic;
pub mod port;
pub mod rtc;
pub mod spi;
pub mod text;
pub mod tsensor;
pub mod usb;
pub mod wdt;
