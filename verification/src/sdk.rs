//! What applications see: systems, lanes, channels, the filesystem and the Lattice.
pub mod broker;
pub mod channel;
pub mod container;
pub mod error;
pub mod fs;
pub mod host;
pub mod lane;
pub mod meter;
pub mod net;
pub mod system;
pub mod time;
