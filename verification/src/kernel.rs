//! The kernel: storage, memory, scheduling, channels and system calls.
pub mod address_space;
pub mod address_space_laws;
pub mod block;
pub mod bytes;
pub mod channel;
pub mod container;
pub mod entropy;
pub mod error;
pub mod frame;
pub mod fs;
pub mod fs_alike;
pub mod fs_answers;
pub mod fs_blocks;
pub mod fs_format;
pub mod fs_laws;
pub mod fs_locked;
pub mod fs_model;
pub mod fs_owned;
pub mod fs_tree;
pub mod gate;
pub mod kernel;
pub mod memory;
pub mod net_device;
pub mod paging;
pub mod paging_laws;
pub mod paging_range;
pub mod phys_memory;
pub mod profile;
pub mod scheduler;
pub mod selector;
pub mod sync;
pub mod syscall;
pub mod syscall_env;
pub mod syscall_laws;
pub mod syscall_model;
pub mod x86_encoder;
