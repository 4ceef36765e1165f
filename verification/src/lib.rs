//! CIBOS: the kernel, network and application-facing logic of a small
//! isolation-first operating system, with every operation's behaviour stated in
//! its contract and proved.

pub mod abi;
pub mod kernel;
pub mod macros;
pub mod net;
pub mod sdk;
pub mod sorted_map;
pub mod sync;
