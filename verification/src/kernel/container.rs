//! Container / boundary management.
//!
//! A container is one isolation boundary: a unit that owns lanes and channels and
//! has its own [`ResourceLimits`]. Every lane creation, channel creation, and memory
//! allocation a boundary makes is checked here against its ceiling.
use vstd::prelude::*;
use crate::abi::ids::{BoundaryId, ChannelId, LaneId};
use crate::abi::limits::{ResourceLimits, ResourceUsage};
use crate::abi::sched::WeightClass;
use crate::kernel::error::{KernelError, KernelResult};
use crate::sorted_map::SortedMap;

verus! {

/// One isolation boundary and the resources it owns.
struct Container {
    limits: ResourceLimits,
    weight_class: WeightClass,
    lanes: SortedMap<bool>,
    channels: SortedMap<bool>,
    allocated_bytes: u64,
    peak_bytes: u64,
}

/// A container as a mathematical value.
pub ghost struct Owned {
    pub limits: ResourceLimits,
    pub weight_class: WeightClass,
    pub lanes: Set<u64>,
    pub channels: Set<u64>,
    pub allocated: u64,
    pub peak: u64,
}

impl Owned {
    /// A container that owns nothing.
    pub open spec fn empty(limits: ResourceLimits, weight_class: WeightClass) -> Owned {
        Owned {
            limits,
            weight_class,
            lanes: Set::empty(),
            channels: Set::empty(),
            allocated: 0,
            peak: 0,
        }
    }

    /// What the container owns is within its ceilings.
    pub open spec fn within_limits(self) -> bool {
        &&& self.lanes.finite()
        &&& self.lanes.len() <= self.limits.max_lanes
        &&& self.channels.finite()
        &&& self.channels.len() <= self.limits.max_channels
        &&& self.allocated <= self.limits.memory_bytes
        &&& self.allocated <= self.peak
    }

    /// What the container uses.
    pub open spec fn usage(self) -> ResourceUsage {
        ResourceUsage {
            allocated_bytes: self.allocated,
            peak_bytes: self.peak,
            lane_count: self.lanes.len() as u32,
            channel_count: self.channels.len() as u32,
        }
    }
}

impl View for Container {
    type V = Owned;

    closed spec fn view(&self) -> Owned {
        Owned {
            limits: self.limits,
            weight_class: self.weight_class,
            lanes: self.lanes@.dom(),
            channels: self.channels@.dom(),
            allocated: self.allocated_bytes,
            peak: self.peak_bytes,
        }
    }
}

impl Container {
    closed spec fn wf(&self) -> bool {
        self.lanes.wf() && self.channels.wf()
    }

    fn new(limits: ResourceLimits, weight_class: WeightClass) -> (c: Container)
        ensures
            c.wf(),
            c@ == Owned::empty(limits, weight_class),
    {
        let c = Container {
            limits,
            weight_class,
            lanes: SortedMap::new(),
            channels: SortedMap::new(),
            allocated_bytes: 0,
            peak_bytes: 0,
        };
        assert(c@.lanes =~= Set::<u64>::empty());
        assert(c@.channels =~= Set::<u64>::empty());
        c
    }
}

/// The state of the registry.
pub ghost struct Boundaries {
    pub containers: Map<u64, Owned>,
    pub next_id: u64,
}

impl Boundaries {
    /// Whether a container exists.
    pub open spec fn has(self, id: BoundaryId) -> bool {
        self.containers.dom().contains(id.0)
    }

    /// The registry with one container replaced.
    pub open spec fn with(self, id: BoundaryId, c: Owned) -> Boundaries {
        Boundaries { containers: self.containers.insert(id.0, c), ..self }
    }

    /// Every container is within its ceilings, and older than the next.
    pub open spec fn within_limits(self) -> bool {
        forall|k: u64|
            #[trigger] self.containers.dom().contains(k) ==> self.containers[k].within_limits() && (
            k == 0 || k < self.next_id)
    }
}

/// The registry of all isolation boundaries.
pub struct ContainerRegistry {
    containers: SortedMap<Container>,
    next_id: u64,
}

/// The states of a list of containers.
spec fn states(m: Map<u64, Container>) -> Map<u64, Owned> {
    m.map_values(|c: Container| c@)
}

impl View for ContainerRegistry {
    type V = Boundaries;

    closed spec fn view(&self) -> Boundaries {
        Boundaries { containers: states(self.containers@), next_id: self.next_id }
    }
}

impl ContainerRegistry {
    /// The lists are in order.
    pub closed spec fn maps_wf(&self) -> bool {
        &&& self.containers.wf()
        &&& forall|k: u64| #[trigger]
            self.containers@.dom().contains(k) ==> self.containers@[k].wf()
    }

    /// The lists are in order, every container is within its ceilings, and the next
    /// container gets a new number.
    pub open spec fn wf(&self) -> bool {
        self.maps_wf() && self@.within_limits() && self@.next_id >= 1
    }

    /// Create an empty registry. Number 0 is reserved for the system boundary.
    pub fn new() -> (r: ContainerRegistry)
        ensures
            r.wf(),
            r@ == (Boundaries { containers: Map::empty(), next_id: 1 }),
    {
        let r = ContainerRegistry { containers: SortedMap::new(), next_id: 1 };
        assert(r@.containers =~= Map::<u64, Owned>::empty());
        r
    }

    /// Put a container in, or back.
    fn put(&mut self, id: u64, c: Container)
        requires
            old(self).maps_wf(),
            c.wf(),
        ensures
            final(self).maps_wf(),
            final(self)@ == (Boundaries {
                containers: old(self)@.containers.insert(id, c@),
                ..old(self)@
            }),
    {
        let ghost v = c@;
        self.containers.insert(id, c);
        assert(self@.containers =~= old(self)@.containers.insert(id, v));
    }

    /// Take a container out.
    fn take(&mut self, id: u64) -> (r: Option<Container>)
        requires
            old(self).maps_wf(),
        ensures
            final(self).maps_wf(),
            match r {
                Some(c) => {
                    &&& old(self)@.containers.dom().contains(id)
                    &&& c.wf()
                    &&& c@ == old(self)@.containers[id]
                    &&& final(self)@ == (Boundaries {
                        containers: old(self)@.containers.remove(id),
                        ..old(self)@
                    })
                },
                None => !old(self)@.containers.dom().contains(id) && *final(self) == *old(self),
            },
    {
        let r: Option<Container> = self.containers.remove(id);
        proof {
            if r is Some {
                assert(self@.containers =~= old(self)@.containers.remove(id));
            }
        }
        r
    }

    /// Create the reserved system boundary.
    pub fn create_system(&mut self, limits: ResourceLimits) -> (r: KernelResult<BoundaryId>)
        requires
            old(self).wf(),
        ensures
            final(self).wf(),
            if old(self)@.has(BoundaryId(0)) {
                (r matches Err(e) && e.is_init("system boundary already exists"@)) && *final(self)
                    == *old(self)
            } else {
                r == Ok::<BoundaryId, KernelError>(BoundaryId(0)) && final(self)@ == old(self)@.with(BoundaryId(0), Owned::empty(limits, WeightClass::System))
            },
    {
        if self.containers.contains_key(0) {
            return Err(KernelError::InitFailed { phase: "system boundary already exists" });
        }
        self.put(0, Container::new(limits, WeightClass::System));
        Ok(BoundaryId::system())
    }

    /// Whether there is a boundary id left to hand out.
    pub fn has_id(&self) -> (r: bool)
        ensures
            r == (self@.next_id < u64::MAX),
    {
        self.next_id < 0xffff_ffff_ffff_ffff
    }

    /// Create a new user container with the given limits and weight class.
    pub fn create(&mut self, limits: ResourceLimits, weight_class: WeightClass) -> (id: BoundaryId)
        requires
            old(self).wf(),
            old(self)@.next_id < u64::MAX,
        ensures
            final(self).wf(),
            id == BoundaryId(old(self)@.next_id),
            !old(self)@.has(id),
            final(self)@ == (Boundaries {
                next_id: (old(self)@.next_id + 1) as u64,
                ..old(self)@.with(id, Owned::empty(limits, weight_class))
            }),
    {
        let id: u64 = self.next_id;
        self.next_id = self.next_id + 1;
        assert(self@.containers == old(self)@.containers);
        self.put(id, Container::new(limits, weight_class));
        BoundaryId(id)
    }

    /// Destroy a container. Memory release is the caller's responsibility (via the
    /// memory manager).
    pub fn destroy(&mut self, id: BoundaryId) -> (r: KernelResult<()>)
        requires
            old(self).wf(),
        ensures
            final(self).wf(),
            if old(self)@.has(id) {
                r is Ok && final(self)@ == (Boundaries {
                    containers: old(self)@.containers.remove(id.0),
                    ..old(self)@
                })
            } else {
                (r matches Err(e) && e is UnknownContainer) && *final(self) == *old(self)
            },
    {
        match self.take(id.0) {
            Some(_) => Ok(()),
            None => Err(KernelError::UnknownContainer),
        }
    }

    /// Whether a container exists.
    pub fn contains(&self, id: BoundaryId) -> (r: bool)
        requires
            self.wf(),
        ensures
            r == self@.has(id),
    {
        self.containers.contains_key(id.0)
    }

    /// Number of containers.
    pub fn count(&self) -> (n: usize)
        requires
            self.wf(),
        ensures
            n == self@.containers.dom().len(),
    {
        assert(self@.containers.dom() =~= self.containers@.dom());
        self.containers.len()
    }

    /// Add a lane to a container, enforcing its lane ceiling.
    pub fn add_lane(&mut self, id: BoundaryId, lane: LaneId) -> (r: KernelResult<()>)
        requires
            old(self).wf(),
        ensures
            final(self).wf(),
            if !old(self)@.has(id) {
                (r matches Err(e) && e is UnknownContainer) && final(self)@ == old(self)@
            } else {
                let c = old(self)@.containers[id.0];
                if c.lanes.len() >= c.limits.max_lanes {
                    (r matches Err(e) && e.is_limit("lanes"@)) && final(self)@ == old(self)@
                } else {
                    r is Ok && final(self)@ == old(self)@.with(
                        id,
                        Owned { lanes: c.lanes.insert(lane.0), ..c },
                    )
                }
            },
    {
        let mut c: Container = match self.take(id.0) {
            Some(c) => c,
            None => return Err(KernelError::UnknownContainer),
        };
        let ghost before = c@;
        proof {
            c.lanes.lemma_order();
        }
        let full: bool = c.lanes.len() >= c.limits.max_lanes as usize;
        if !full {
            c.lanes.insert(lane.0, true);
            proof {
                c.lanes.lemma_order();
            }
            assert(c@.lanes =~= before.lanes.insert(lane.0));
        }
        self.put(id.0, c);
        if full {
            assert(self@.containers =~= old(self)@.containers);
            Err(KernelError::LimitExceeded { resource: "lanes" })
        } else {
            assert(self@.containers =~= old(self)@.containers.insert(
                id.0,
                Owned { lanes: before.lanes.insert(lane.0), ..before },
            ));
            Ok(())
        }
    }

    /// Remove a lane from a container.
    pub fn remove_lane(&mut self, id: BoundaryId, lane: LaneId)
        requires
            old(self).wf(),
        ensures
            final(self).wf(),
            final(self)@ == if old(self)@.has(id) {
                let c = old(self)@.containers[id.0];
                old(self)@.with(id, Owned { lanes: c.lanes.remove(lane.0), ..c })
            } else {
                old(self)@
            },
    {
        if let Some(c0) = self.take(id.0) {
            let mut c: Container = c0;
            let ghost before = c@;
            proof {
                c.lanes.lemma_order();
            }
            c.lanes.remove(lane.0);
            proof {
                c.lanes.lemma_order();
            }
            assert(c@.lanes =~= before.lanes.remove(lane.0));
            self.put(id.0, c);
            assert(self@.containers =~= old(self)@.containers.insert(
                id.0,
                Owned { lanes: before.lanes.remove(lane.0), ..before },
            ));
        }
    }

    /// Add a channel to a container, enforcing its channel ceiling.
    pub fn add_channel(&mut self, id: BoundaryId, channel: ChannelId) -> (r: KernelResult<()>)
        requires
            old(self).wf(),
        ensures
            final(self).wf(),
            if !old(self)@.has(id) {
                (r matches Err(e) && e is UnknownContainer) && final(self)@ == old(self)@
            } else {
                let c = old(self)@.containers[id.0];
                if c.channels.len() >= c.limits.max_channels {
                    (r matches Err(e) && e.is_limit("channels"@)) && final(self)@ == old(self)@
                } else {
                    r is Ok && final(self)@ == old(self)@.with(
                        id,
                        Owned { channels: c.channels.insert(channel.0), ..c },
                    )
                }
            },
    {
        let mut c: Container = match self.take(id.0) {
            Some(c) => c,
            None => return Err(KernelError::UnknownContainer),
        };
        let ghost before = c@;
        proof {
            c.channels.lemma_order();
        }
        let full: bool = c.channels.len() >= c.limits.max_channels as usize;
        if !full {
            c.channels.insert(channel.0, true);
            proof {
                c.channels.lemma_order();
            }
            assert(c@.channels =~= before.channels.insert(channel.0));
        }
        self.put(id.0, c);
        if full {
            assert(self@.containers =~= old(self)@.containers);
            Err(KernelError::LimitExceeded { resource: "channels" })
        } else {
            assert(self@.containers =~= old(self)@.containers.insert(
                id.0,
                Owned { channels: before.channels.insert(channel.0), ..before },
            ));
            Ok(())
        }
    }

    /// Remove a channel from a container.
    pub fn remove_channel(&mut self, id: BoundaryId, channel: ChannelId)
        requires
            old(self).wf(),
        ensures
            final(self).wf(),
            final(self)@ == if old(self)@.has(id) {
                let c = old(self)@.containers[id.0];
                old(self)@.with(id, Owned { channels: c.channels.remove(channel.0), ..c })
            } else {
                old(self)@
            },
    {
        if let Some(c0) = self.take(id.0) {
            let mut c: Container = c0;
            let ghost before = c@;
            proof {
                c.channels.lemma_order();
            }
            c.channels.remove(channel.0);
            proof {
                c.channels.lemma_order();
            }
            assert(c@.channels =~= before.channels.remove(channel.0));
            self.put(id.0, c);
            assert(self@.containers =~= old(self)@.containers.insert(
                id.0,
                Owned { channels: before.channels.remove(channel.0), ..before },
            ));
        }
    }

    /// Account a memory allocation against a container's limit.
    pub fn allocate(&mut self, id: BoundaryId, bytes: u64) -> (r: KernelResult<()>)
        requires
            old(self).wf(),
        ensures
            final(self).wf(),
            if !old(self)@.has(id) {
                (r matches Err(e) && e is UnknownContainer) && final(self)@ == old(self)@
            } else {
                let c = old(self)@.containers[id.0];
                if c.allocated + bytes > c.limits.memory_bytes {
                    (r matches Err(e) && e.is_limit("memory"@)) && final(self)@ == old(self)@
                } else {
                    r is Ok && final(self)@ == old(self)@.with(
                        id,
                        Owned {
                            allocated: (c.allocated + bytes) as u64,
                            peak: if c.allocated + bytes > c.peak {
                                (c.allocated + bytes) as u64
                            } else {
                                c.peak
                            },
                            ..c
                        },
                    )
                }
            },
    {
        let mut c: Container = match self.take(id.0) {
            Some(c) => c,
            None => return Err(KernelError::UnknownContainer),
        };
        let ghost before = c@;
        let fits: bool = c.limits.check_allocation(c.allocated_bytes, bytes);
        if fits {
            c.allocated_bytes = c.allocated_bytes + bytes;
            if c.allocated_bytes > c.peak_bytes {
                c.peak_bytes = c.allocated_bytes;
            }
        }
        let ghost after = c@;
        self.put(id.0, c);
        if fits {
            assert(self@.containers =~= old(self)@.containers.insert(id.0, after));
            Ok(())
        } else {
            assert(self@.containers =~= old(self)@.containers);
            Err(KernelError::LimitExceeded { resource: "memory" })
        }
    }

    /// Release previously-allocated memory back to a container's budget.
    pub fn release_memory(&mut self, id: BoundaryId, bytes: u64)
        requires
            old(self).wf(),
        ensures
            final(self).wf(),
            final(self)@ == if old(self)@.has(id) {
                let c = old(self)@.containers[id.0];
                old(self)@.with(
                    id,
                    Owned {
                        allocated: if bytes > c.allocated {
                            0
                        } else {
                            (c.allocated - bytes) as u64
                        },
                        ..c
                    },
                )
            } else {
                old(self)@
            },
    {
        if let Some(c0) = self.take(id.0) {
            let mut c: Container = c0;
            c.allocated_bytes = c.allocated_bytes.saturating_sub(bytes);
            let ghost after = c@;
            self.put(id.0, c);
            assert(self@.containers =~= old(self)@.containers.insert(id.0, after));
        }
    }

    /// Current resource usage of a container, if it exists.
    pub fn usage(&self, id: BoundaryId) -> (r: Option<ResourceUsage>)
        requires
            self.wf(),
        ensures
            match r {
                Some(u) => self@.has(id) && u == self@.containers[id.0].usage(),
                None => !self@.has(id),
            },
    {
        match self.containers.get(id.0) {
            None => None,
            Some(c) => {
                assert(self@.containers.dom().contains(id.0));
                assert(c@ == self@.containers[id.0]);
                Some(
                    ResourceUsage {
                        allocated_bytes: c.allocated_bytes,
                        peak_bytes: c.peak_bytes,
                        lane_count: c.lanes.len() as u32,
                        channel_count: c.channels.len() as u32,
                    },
                )
            },
        }
    }
}

impl Default for ContainerRegistry {
    fn default() -> (r: ContainerRegistry)
        ensures
            r.wf(),
            r@ == (Boundaries { containers: Map::empty(), next_id: 1 }),
    {
        ContainerRegistry::new()
    }
}

/// Memory is charged to a container as it is allocated, within its ceiling and no further:
/// an allocation succeeds exactly where it fits, and is then in use; the peak is the most
/// that ever was. What is released is in use no more. No other container's use changes.
pub proof fn memory_is_charged(
    a: &mut ContainerRegistry,
    mid: ContainerRegistry,
    id: BoundaryId,
    bytes: u64,
    r: KernelResult<()>,
    had: ResourceUsage,
    has: Option<ResourceUsage>,
    other: BoundaryId,
    other_had: Option<ResourceUsage>,
    other_has: Option<ResourceUsage>,
    f: &mut ContainerRegistry,
    end: ContainerRegistry,
    back: u64,
    left: Option<ResourceUsage>,
)
    requires
        old(a).wf(),
        mid == *final(a),
        call_ensures(ContainerRegistry::usage, (&*old(a), id), Some(had)),
        call_ensures(ContainerRegistry::allocate, (a, id, bytes), r),
        call_ensures(ContainerRegistry::usage, (&mid, id), has),
        other != id,
        call_ensures(ContainerRegistry::usage, (&*old(a), other), other_had),
        call_ensures(ContainerRegistry::usage, (&mid, other), other_has),
        *old(f) == mid,
        end == *final(f),
        call_ensures(ContainerRegistry::release_memory, (f, id, back), ()),
        call_ensures(ContainerRegistry::usage, (&end, id), left),
    ensures
        r is Ok <==> had.allocated_bytes + bytes <= old(a)@.containers[id.0].limits.memory_bytes,
        has matches Some(u) && u.allocated_bytes == had.allocated_bytes + (if r is Ok {
            bytes as int
        } else {
            0
        }) && u.peak_bytes == (if u.allocated_bytes > had.peak_bytes {
            u.allocated_bytes
        } else {
            had.peak_bytes
        }) && u.lane_count == had.lane_count && u.channel_count == had.channel_count,
        other_has == other_had,
        left matches Some(u) && u.peak_bytes == has->Some_0.peak_bytes && (back
            <= has->Some_0.allocated_bytes ==> u.allocated_bytes + back
            == has->Some_0.allocated_bytes) && (back > has->Some_0.allocated_bytes
            ==> u.allocated_bytes == 0),
        end@.containers[id.0].limits == old(a)@.containers[id.0].limits,
{
}

/// Lanes and channels are counted, each kind within its own ceiling: one more is admitted
/// exactly where there are fewer than the ceiling allows, and then counted if it is new;
/// taken out again, it is not. The one kind does not count for the other.
pub proof fn lanes_and_channels_are_counted(
    l: &mut ContainerRegistry,
    with_lane: ContainerRegistry,
    c: &mut ContainerRegistry,
    with_channel: ContainerRegistry,
    o: &mut ContainerRegistry,
    without: ContainerRegistry,
    id: BoundaryId,
    lane: LaneId,
    channel: ChannelId,
    had: ResourceUsage,
    r: KernelResult<()>,
    q: KernelResult<()>,
    u: Option<ResourceUsage>,
    w: Option<ResourceUsage>,
    x: Option<ResourceUsage>,
)
    requires
        old(l).wf(),
        *old(c) == *old(l),
        with_lane == *final(l) && with_channel == *final(c),
        call_ensures(ContainerRegistry::usage, (&*old(l), id), Some(had)),
        call_ensures(ContainerRegistry::add_lane, (l, id, lane), r),
        call_ensures(ContainerRegistry::add_channel, (c, id, channel), q),
        call_ensures(ContainerRegistry::usage, (&with_lane, id), u),
        call_ensures(ContainerRegistry::usage, (&with_channel, id), w),
        *old(o) == with_lane,
        without == *final(o),
        call_ensures(ContainerRegistry::remove_lane, (o, id, lane), ()),
        call_ensures(ContainerRegistry::usage, (&without, id), x),
        with_lane.wf() && with_channel.wf() && without.wf(),
        !old(l)@.containers[id.0].lanes.contains(lane.0),
        !old(l)@.containers[id.0].channels.contains(channel.0),
    ensures
        r is Ok <==> had.lane_count < old(l)@.containers[id.0].limits.max_lanes,
        q is Ok <==> had.channel_count < old(l)@.containers[id.0].limits.max_channels,
        u == Some(
            ResourceUsage {
                lane_count: if r is Ok {
                    (had.lane_count + 1) as u32
                } else {
                    had.lane_count
                },
                ..had
            },
        ),
        w == Some(
            ResourceUsage {
                channel_count: if q is Ok {
                    (had.channel_count + 1) as u32
                } else {
                    had.channel_count
                },
                ..had
            },
        ),
        x == Some(had),
{
    assert(old(l)@.containers.dom().contains(id.0));
    let before = old(l)@.containers[id.0];
    assert(before.within_limits());
    assert(before.lanes.insert(lane.0).remove(lane.0) =~= before.lanes);
    assert(before.lanes.remove(lane.0) =~= before.lanes);
}

/// A new container has a number that none had before, never that of the system, and owns
/// nothing under the limits it was made with; a destroyed one is gone, with all it owned,
/// and its number does not come back. No other container changes.
pub proof fn containers_come_and_go(
    n: &mut ContainerRegistry,
    made: ContainerRegistry,
    limits: ResourceLimits,
    class: WeightClass,
    id: BoundaryId,
    u: Option<ResourceUsage>,
    d: &mut ContainerRegistry,
    gone: ContainerRegistry,
    victim: BoundaryId,
    r: KernelResult<()>,
    v: Option<ResourceUsage>,
    other: BoundaryId,
    before: Option<ResourceUsage>,
    between: Option<ResourceUsage>,
    after: Option<ResourceUsage>,
)
    requires
        old(n).wf(),
        old(n)@.next_id < u64::MAX,
        made == *final(n),
        call_ensures(ContainerRegistry::create, (n, limits, class), id),
        call_ensures(ContainerRegistry::usage, (&made, id), u),
        *old(d) == made,
        gone == *final(d),
        call_ensures(ContainerRegistry::destroy, (d, victim), r),
        call_ensures(ContainerRegistry::usage, (&gone, victim), v),
        other != id && other != victim,
        call_ensures(ContainerRegistry::usage, (&*old(n), other), before),
        call_ensures(ContainerRegistry::usage, (&made, other), between),
        call_ensures(ContainerRegistry::usage, (&gone, other), after),
    ensures
        id.0 >= 1,
        !old(n)@.containers.dom().contains(id.0),
        u == Some(
            ResourceUsage { allocated_bytes: 0, peak_bytes: 0, lane_count: 0, channel_count: 0 },
        ),
        made@.containers[id.0].limits == limits && made@.containers[id.0].weight_class == class,
        made@.next_id > id.0 && gone@.next_id > id.0,
        r is Ok <==> made@.containers.dom().contains(victim.0),
        v is None,
        between == before && after == before,
{
}

} // verus!
