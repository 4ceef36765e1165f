//! ICMP message types we handle.
use vstd::prelude::*;

verus! {

/// The answer to a ping.
pub const ECHO_REPLY: u8 = 0;

/// A ping.
pub const ECHO_REQUEST: u8 = 8;

} // verus!
