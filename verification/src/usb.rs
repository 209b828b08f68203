
//! Host controllers and the devices on their buses.
pub mod bus;
pub mod descriptors;
pub mod driver;
pub mod dwc2;
pub mod ehci;
pub mod enumeration;
pub mod high;
pub mod ohci;
pub mod pool;
pub mod ports;
pub mod publish;
pub mod regs;
pub mod ring;
pub mod transaction;
pub mod transfer;
