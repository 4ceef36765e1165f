//! EtherType values we handle.
use vstd::prelude::*;

verus! {

/// An IPv4 datagram.
pub const IPV4: u16 = 0x0800;

/// An ARP packet.
pub const ARP: u16 = 0x0806;

} // verus!
