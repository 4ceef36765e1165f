//! IPv4 protocol numbers we handle.
use vstd::prelude::*;

verus! {

/// ICMP.
pub const ICMP: u8 = 1;

/// UDP.
pub const UDP: u8 = 17;

/// TCP (recognized; not implemented).
pub const TCP: u8 = 6;

} // verus!
