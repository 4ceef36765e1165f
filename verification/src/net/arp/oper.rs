//! ARP operation codes.
use vstd::prelude::*;

verus! {

/// Who has this address?
pub const REQUEST: u16 = 1;

/// I have this address.
pub const REPLY: u16 = 2;

} // verus!
