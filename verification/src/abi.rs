//! The vocabulary that the kernel, the applications and the trap entry share:
//! identifiers, channel terms, and the system-call interface.
pub mod calls;
pub mod handoff;
pub mod ids;
pub mod limits;
pub mod memory_map;
pub mod sched;
pub mod terms;
