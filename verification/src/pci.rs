//! PCI host bridges: resource windows, bridge forwarding, interrupt routing and
//! configuration space.

pub mod bar;
pub mod config_port;
pub mod configure;
pub mod decode;
pub mod dma;
pub mod finalize;
pub mod host;
pub mod host_table;
pub mod host_runtime;
pub mod ls2k_config;
pub mod probe;
pub mod resources;
pub mod routing;
pub mod scan;
pub mod topology;
pub mod tree;
