//! Resource ceilings and usage of an isolation boundary.
use vstd::prelude::*;

verus! {

/// The ceilings of one isolation boundary.
#[derive(Debug, Clone, Copy, PartialEq, Eq, Structural)]
pub struct ResourceLimits {
    /// Memory, in bytes.
    pub memory_bytes: u64,
    /// Lanes at a time.
    pub max_lanes: u32,
    /// Channels at a time.
    pub max_channels: u32,
    /// The largest message, in bytes.
    pub max_message_bytes: u32,
    /// Messages that a channel may buffer.
    pub max_channel_buffer: u32,
}

/// The ceilings that an application gets by default: 64 MiB, 64 lanes, 64 channels,
/// messages of 64 KiB, 256 of them buffered.
pub open spec fn application_limits() -> ResourceLimits {
    ResourceLimits {
        memory_bytes: 0x400_0000,
        max_lanes: 64,
        max_channels: 64,
        max_message_bytes: 0x1_0000,
        max_channel_buffer: 256,
    }
}

impl ResourceLimits {
    /// The ceilings that an application gets by default.
    pub fn default_application() -> (l: ResourceLimits)
        ensures
            l == application_limits(),
    {
        ResourceLimits {
            memory_bytes: 0x400_0000,
            max_lanes: 64,
            max_channels: 64,
            max_message_bytes: 0x1_0000,
            max_channel_buffer: 256,
        }
    }

    /// Whether `requested` more bytes fit where `already` are in use.
    pub fn check_allocation(&self, already: u64, requested: u64) -> (fits: bool)
        ensures
            fits == (already + requested <= self.memory_bytes),
    {
        match already.checked_add(requested) {
            Some(total) => total <= self.memory_bytes,
            None => false,
        }
    }
}

/// What a boundary uses.
#[derive(Debug, Clone, Copy, PartialEq, Eq, Structural)]
pub struct ResourceUsage {
    /// Bytes allocated now.
    pub allocated_bytes: u64,
    /// The most bytes that were allocated at a time.
    pub peak_bytes: u64,
    /// Lanes now.
    pub lane_count: u32,
    /// Channels now.
    pub channel_count: u32,
}

/// An allocation fits exactly where what is in use and what is asked for together stay
/// within the ceiling, be the sum greater than a u64 or not; with nothing asked for, where
/// what is in use does. More never fits where less does not.
pub proof fn allocation_fits_within_the_ceiling(
    l: ResourceLimits,
    already: u64,
    requested: u64,
    less: u64,
    fits: bool,
    less_fits: bool,
)
    requires
        call_ensures(ResourceLimits::check_allocation, (&l, already, requested), fits),
        call_ensures(ResourceLimits::check_allocation, (&l, already, less), less_fits),
        less <= requested,
    ensures
        fits <==> l.memory_bytes - already >= requested,
        fits ==> less_fits,
        already > l.memory_bytes ==> !fits,
{
}

/// What an application gets by default: 64 MiB of memory, 64 lanes and 64 channels, each of
/// at most 256 messages of at most 64 KiB.
pub proof fn application_defaults(l: ResourceLimits)
    requires
        call_ensures(ResourceLimits::default_application, (), l),
    ensures
        l.memory_bytes == 64 * 1024 * 1024,
        l.max_lanes == 64,
        l.max_channels == 64,
        l.max_message_bytes == 64 * 1024,
        l.max_channel_buffer == 256,
{
}

} // verus!
