//! Packet parsing of the network stack: Ethernet, ARP, IPv4, IPv6, TCP, UDP
//! and ICMP headers, checksums and the receive-side flow hash.

pub mod batch;
pub mod checksum;
pub mod drain;
pub mod flow;
pub mod headers;
pub mod ip;
pub mod ipv4;
pub mod ipv6;
pub mod rss;
pub mod tcp;
pub mod transport;
pub mod turn;
pub mod types;
