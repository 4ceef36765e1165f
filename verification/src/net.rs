//! The network stack: protocol logic over byte slices.
//!
//!   * Ethernet II framing (parse/build)
//!   * ARP (resolve IPv4 -> MAC, with a small cache)
//!   * IPv4 (header parse/build + checksum; no fragmentation)
//!   * UDP (datagram parse/build)
//!   * ICMP echo (ping)
//!
//! The stack is driven by a frame transport that the caller provides.
pub mod addr;
pub mod arp;
pub mod checksum;
pub mod ethernet;
pub mod ethertype;
pub mod icmp;
pub mod ip_proto;
pub mod ipv4;
pub mod udp;
pub mod wire;
