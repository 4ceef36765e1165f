//! Scheduling vocabulary: weight classes, profiles, time and waits.
use vstd::prelude::*;
use crate::abi::ids::{ChannelId, LaneId};

verus! {

/// How much a lane weighs when lanes compete for execution contexts.
#[derive(Debug, Clone, Copy, PartialEq, Eq, Structural)]
pub enum WeightClass {
    /// Kernel and system services.
    System,
    /// Ordinary application lanes.
    User,
    /// Work that may wait.
    Background,
}

/// What a kernel is built for.
#[derive(Debug, Clone, Copy, PartialEq, Eq, Structural)]
pub enum CibosProfile {
    /// Scheduling reveals nothing: all lanes weigh the same.
    MaximumIsolation,
    /// Isolation and throughput in balance.
    Balanced,
    /// Throughput first.
    Performance,
    /// Computation, with weights set lane by lane.
    Compute,
}

/// The selection weight of each class.
#[derive(Debug, Clone, Copy, PartialEq, Eq, Structural)]
pub struct SchedulingConfig {
    /// Weight of [`WeightClass::System`].
    pub system_weight: u32,
    /// Weight of [`WeightClass::User`].
    pub user_weight: u32,
    /// Weight of [`WeightClass::Background`].
    pub background_weight: u32,
}

/// The selection weights of a profile: equal under maximum isolation.
pub open spec fn profile_config(profile: CibosProfile) -> SchedulingConfig {
    match profile {
        CibosProfile::MaximumIsolation => SchedulingConfig {
            system_weight: 1,
            user_weight: 1,
            background_weight: 1,
        },
        CibosProfile::Balanced => SchedulingConfig {
            system_weight: 4,
            user_weight: 2,
            background_weight: 1,
        },
        CibosProfile::Performance => SchedulingConfig {
            system_weight: 4,
            user_weight: 3,
            background_weight: 1,
        },
        CibosProfile::Compute => SchedulingConfig {
            system_weight: 2,
            user_weight: 4,
            background_weight: 1,
        },
    }
}

impl SchedulingConfig {
    /// The selection weights of a profile.
    pub fn defaults_for(profile: CibosProfile) -> (c: SchedulingConfig)
        ensures
            c == profile_config(profile),
    {
        match profile {
            CibosProfile::MaximumIsolation => SchedulingConfig {
                system_weight: 1,
                user_weight: 1,
                background_weight: 1,
            },
            CibosProfile::Balanced => SchedulingConfig {
                system_weight: 4,
                user_weight: 2,
                background_weight: 1,
            },
            CibosProfile::Performance => SchedulingConfig {
                system_weight: 4,
                user_weight: 3,
                background_weight: 1,
            },
            CibosProfile::Compute => SchedulingConfig {
                system_weight: 2,
                user_weight: 4,
                background_weight: 1,
            },
        }
    }

    /// The weight of a class.
    pub open spec fn class_weight(self, class: WeightClass) -> u32 {
        match class {
            WeightClass::System => self.system_weight,
            WeightClass::User => self.user_weight,
            WeightClass::Background => self.background_weight,
        }
    }
}

/// A point on the monotonic clock, in nanoseconds since boot.
#[derive(Debug, Clone, Copy, PartialEq, Eq, Structural)]
pub struct Monotonic {
    /// Nanoseconds since boot.
    pub nanos: u64,
}

impl Monotonic {
    /// The start of the clock.
    pub fn zero() -> (t: Monotonic)
        ensures
            t.nanos == 0,
    {
        Monotonic { nanos: 0 }
    }

    /// `nanos` nanoseconds after the start.
    pub fn from_nanos(nanos: u64) -> (t: Monotonic)
        ensures
            t.nanos == nanos,
    {
        Monotonic { nanos }
    }

    /// `millis` milliseconds after the start.
    pub fn from_millis(millis: u64) -> (t: Monotonic)
        requires
            millis * 1_000_000 <= u64::MAX,
        ensures
            t.nanos == millis * 1_000_000,
    {
        Monotonic { nanos: millis * 1_000_000 }
    }

    /// The point `delta` nanoseconds later, or the end of the clock.
    pub open spec fn plus(self, delta: u64) -> Monotonic {
        Monotonic {
            nanos: if self.nanos + delta > u64::MAX {
                u64::MAX
            } else {
                (self.nanos + delta) as u64
            },
        }
    }

    /// The point `delta` nanoseconds later, or the end of the clock.
    pub fn saturating_add(self, delta: u64) -> (t: Monotonic)
        ensures
            t == self.plus(delta),
    {
        Monotonic { nanos: self.nanos.saturating_add(delta) }
    }

    /// Whether this point is at or past `deadline`.
    pub fn reached(self, deadline: Monotonic) -> (r: bool)
        ensures
            r == (self.nanos >= deadline.nanos),
    {
        self.nanos >= deadline.nanos
    }
}

/// What a parked lane waits for.
#[derive(Debug, Clone, Copy, PartialEq, Eq, Structural)]
pub enum WaitResource {
    /// The clock to reach a point.
    Timer(Monotonic),
    /// A message in a channel.
    ChannelData(ChannelId),
    /// Room in a channel's buffer.
    ChannelBuffer(ChannelId),
    /// This much memory.
    Memory(u64),
}

/// What lanes and channels ask of the kernel. Each method's effect is named by a
/// specification function of the implementing kernel.
pub trait KernelInterface: Sized {
    /// The kernel's own invariant.
    spec fn sound(&self) -> bool;

    /// `after` is what parking `lane` on `resource` makes of `self`.
    spec fn parked(self, lane: LaneId, resource: WaitResource, after: Self) -> bool;

    /// `after` is what releasing `lane` makes of `self`.
    spec fn released(self, lane: LaneId, after: Self) -> bool;

    /// The current time.
    spec fn time(&self) -> Monotonic;

    /// `after` and `accepted` are what setting the weight of `lane` makes of `self`.
    spec fn weighted(self, lane: LaneId, weight: u32, after: Self, accepted: bool) -> bool;

    /// Park `lane` until `resource` is available (catch).
    fn register_wait(&mut self, lane: LaneId, resource: WaitResource)
        requires
            old(self).sound(),
        ensures
            final(self).sound(),
            old(self).parked(lane, resource, *final(self)),
    ;

    /// Make `lane` ready to run (release).
    fn signal_ready(&mut self, lane: LaneId)
        requires
            old(self).sound(),
        ensures
            final(self).sound(),
            old(self).released(lane, *final(self)),
    ;

    /// The current time.
    fn now(&self) -> (t: Monotonic)
        ensures
            t == self.time(),
    ;

    /// Set the selection weight of `lane`, if the kernel allows it.
    fn set_lane_weight(&mut self, lane: LaneId, weight: u32) -> (accepted: bool)
        requires
            old(self).sound(),
        ensures
            final(self).sound(),
            old(self).weighted(lane, weight, *final(self), accepted),
    ;

    /// Change the selection weight of `lane`, if the kernel allows it.
    fn update_lane_weight(&mut self, lane: LaneId, weight: u32) -> (accepted: bool)
        requires
            old(self).sound(),
        ensures
            final(self).sound(),
            old(self).weighted(lane, weight, *final(self), accepted),
    {
        self.set_lane_weight(lane, weight)
    }
}

/// Time goes on. A point `delta` later is reached when `delta` has gone by and no sooner, or
/// where the clock ends; the start is reached always, and a millisecond is a million
/// nanoseconds.
pub proof fn clock_goes_on(
    start: Monotonic,
    t: Monotonic,
    delta: u64,
    later: Monotonic,
    now: Monotonic,
    due: bool,
    at_start: bool,
    millis: u64,
    m: Monotonic,
)
    requires
        call_ensures(Monotonic::zero, (), start),
        call_ensures(Monotonic::saturating_add, (t, delta), later),
        call_ensures(Monotonic::reached, (now, later), due),
        call_ensures(Monotonic::reached, (now, start), at_start),
        millis * 1_000_000 <= u64::MAX,
        call_ensures(Monotonic::from_millis, (millis,), m),
    ensures
        at_start,
        t.nanos + delta <= u64::MAX ==> later.nanos - t.nanos == delta && (due <==> now.nanos
            - t.nanos >= delta),
        t.nanos + delta > u64::MAX ==> later.nanos == u64::MAX && (due <==> now.nanos == u64::MAX),
        later.nanos >= t.nanos,
        m.nanos == millis * 1000 * 1000,
{
}

} // verus!
