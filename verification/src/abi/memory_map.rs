//! The memory map that the firmware hands over.
use vstd::prelude::*;

verus! {

/// What a memory region holds.
#[derive(Debug, Clone, Copy, PartialEq, Eq, Structural)]
pub enum MemoryRegionKind {
    /// Free RAM.
    Usable,
    /// In use by the firmware.
    FirmwareReserved,
}

/// A region of physical memory.
#[derive(Debug, Clone, Copy, PartialEq, Eq, Structural)]
pub struct MemoryRegion {
    /// First address.
    pub base: u64,
    /// Bytes.
    pub length: u64,
    /// What the region holds.
    pub kind: MemoryRegionKind,
}

impl MemoryRegion {
    /// The address after the last one of the region.
    pub open spec fn end_spec(self) -> int {
        self.base + self.length
    }

    /// The region ends within the 64-bit address space.
    pub open spec fn fits(self) -> bool {
        self.end_spec() <= u64::MAX
    }

    /// The address after the last one of the region.
    pub fn end(&self) -> (r: u64)
        requires
            self.fits(),
        ensures
            r == self.end_spec(),
    {
        self.base + self.length
    }
}

/// A region ends where its bytes do: as far behind its first address as it is long.
pub proof fn region_ends_behind_its_bytes(r: MemoryRegion, end: u64)
    requires
        r.fits(),
        call_ensures(MemoryRegion::end, (&r,), end),
    ensures
        end - r.base == r.length,
        r.base <= end,
        end == r.base <==> r.length == 0,
{
}

} // verus!
