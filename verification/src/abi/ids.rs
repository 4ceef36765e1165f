//! Identifiers.
use vstd::prelude::*;

verus! {

/// An isolation boundary: the security principal.
#[derive(Debug, Clone, Copy, PartialEq, Eq, Structural)]
pub struct BoundaryId(pub u64);

impl BoundaryId {
    /// The system boundary.
    pub fn system() -> (id: BoundaryId)
        ensures
            id == BoundaryId(0),
    {
        BoundaryId(0)
    }

    /// The boundary with number `raw`.
    pub fn new(raw: u64) -> (id: BoundaryId)
        ensures
            id == BoundaryId(raw),
    {
        BoundaryId(raw)
    }
}

/// A lane: one independently scheduled flow of execution.
#[derive(Debug, Clone, Copy, PartialEq, Eq, Structural)]
pub struct LaneId(pub u64);

impl LaneId {
    /// The lane with number `raw`.
    pub fn new(raw: u64) -> (id: LaneId)
        ensures
            id == LaneId(raw),
    {
        LaneId(raw)
    }
}

/// A channel.
#[derive(Debug, Clone, Copy, PartialEq, Eq, Structural)]
pub struct ChannelId(pub u64);

impl ChannelId {
    /// The channel with number `raw`.
    pub fn new(raw: u64) -> (id: ChannelId)
        ensures
            id == ChannelId(raw),
    {
        ChannelId(raw)
    }
}

} // verus!
