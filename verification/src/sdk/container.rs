//! Container self-inspection: limits, id, and live counts.
use vstd::prelude::*;
use crate::abi::ids::BoundaryId;
use crate::abi::limits::ResourceLimits;
use crate::sdk::meter::HeapMeter;
use crate::sdk::system::System;

verus! {

/// An isolation boundary identifier -- a container's id.
pub type ContainerId = BoundaryId;

/// This container's resource limits: memory ceiling, maximum lanes, maximum channels,
/// and the per-channel message-size and buffer caps.
pub fn get_resource_limits(system: &System) -> (l: ResourceLimits)
    ensures
        l == system@.limits,
{
    system.resource_limits()
}

/// The maximum number of bytes this container may have allocated at once. Where an
/// address has fewer bits than the limit, its low bits.
pub fn memory_limit(system: &System) -> (n: usize)
    ensures
        system@.limits.memory_bytes <= usize::MAX ==> n == system@.limits.memory_bytes,
        n == system@.limits.memory_bytes as usize,
{
    #[verifier::truncate]
    (system.resource_limits().memory_bytes as usize)
}

/// This container's id -- the isolation boundary the application runs in.
pub fn id(system: &System) -> (b: ContainerId)
    ensures
        b == system@.boundary,
{
    system.boundary()
}

/// A breakdown of the container's currently open channels by direction.
#[derive(Debug, Clone, Copy, PartialEq, Eq, Structural)]
pub struct ChannelCount {
    /// Channels a remote container opened to this one.
    pub inbound: u32,
    /// Channels this container opened to a remote one.
    pub outbound: u32,
    /// Local (intra-container) channels.
    pub local: u32,
}

/// This container's open channels, by direction. Channels opened for plumbing (lane
/// joins, doorbells, rendezvous) are not counted.
pub fn channel_count(system: &System) -> (c: ChannelCount)
    ensures
        c == (ChannelCount {
            inbound: system@.inbound_channels,
            outbound: system@.outbound_channels,
            local: system@.local_channels,
        }),
{
    ChannelCount {
        inbound: system.inbound_channel_count(),
        outbound: system.outbound_channel_count(),
        local: system.local_channel_count(),
    }
}

/// A snapshot of the container's memory accounting.
#[derive(Debug, Clone, Copy, PartialEq, Eq, Structural)]
pub struct MemoryStats {
    /// Bytes currently allocated.
    pub allocated_bytes: u64,
    /// The high-water mark of allocated bytes.
    pub peak_bytes: u64,
    /// The container's memory ceiling.
    pub limit_bytes: u64,
}

/// This container's current memory usage: bytes allocated now and the peak so far, as
/// metered, and the limit.
pub fn memory_usage(system: &System, meter: &HeapMeter) -> (m: MemoryStats)
    ensures
        m == (MemoryStats {
            allocated_bytes: meter.allocated as u64,
            peak_bytes: meter.peak as u64,
            limit_bytes: system@.limits.memory_bytes,
        }),
{
    MemoryStats {
        allocated_bytes: meter.allocated_bytes() as u64,
        peak_bytes: meter.peak_bytes() as u64,
        limit_bytes: system.resource_limits().memory_bytes,
    }
}

/// What a container tells of itself is what it is: its id, its limits, its channels of each
/// direction as counted one by one, and the memory as metered, against its ceiling.
pub proof fn container_tells_what_it_is(
    s: System,
    meter: HeapMeter,
    l: ResourceLimits,
    b: ContainerId,
    c: ChannelCount,
    inbound: u32,
    outbound: u32,
    local: u32,
    m: MemoryStats,
    live: usize,
    most: usize,
    limit: usize,
)
    requires
        call_ensures(get_resource_limits, (&s,), l),
        call_ensures(id, (&s,), b),
        call_ensures(channel_count, (&s,), c),
        call_ensures(System::inbound_channel_count, (&s,), inbound),
        call_ensures(System::outbound_channel_count, (&s,), outbound),
        call_ensures(System::local_channel_count, (&s,), local),
        call_ensures(memory_usage, (&s, &meter), m),
        call_ensures(HeapMeter::allocated_bytes, (&meter,), live),
        call_ensures(HeapMeter::peak_bytes, (&meter,), most),
        call_ensures(memory_limit, (&s,), limit),
    ensures
        b == s@.boundary,
        l == s@.limits,
        c.inbound == inbound && c.outbound == outbound && c.local == local,
        m.allocated_bytes == live && m.peak_bytes == most && m.limit_bytes == l.memory_bytes,
        l.memory_bytes <= usize::MAX ==> limit == l.memory_bytes,
{
}

} // verus!
