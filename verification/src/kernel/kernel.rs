//! The kernel.
//!
//! Ties the [`Scheduler`] to the lanes in flight, memory accounting, the boundary
//! registry and the channel registry. The scheduling loop is the caller's: it asks
//! for a batch, polls each lane of it, and reports how each poll ended. A lane that
//! stalls registers a wait and leaves the ready set; a lane that yields signals
//! ready again; a lane that completes is reaped.
use vstd::prelude::*;
use crate::abi::handoff::{record_fault, typed_regions, HandoffData};
use crate::abi::ids::{BoundaryId, ChannelId, LaneId};
use crate::abi::limits::{application_limits, ResourceLimits};
use crate::abi::memory_map::MemoryRegion;
use crate::abi::sched::{profile_config, CibosProfile, KernelInterface, Monotonic, WeightClass};
use crate::abi::terms::ChannelTerms;
use crate::kernel::channel::{Chan, Channel, ChannelRegistry, Requests};
use crate::kernel::container::{Boundaries, ContainerRegistry, Owned};
use crate::kernel::entropy::Stream;
use crate::kernel::error::{KernelError, KernelResult, RuntimeError, SharedError};
use crate::kernel::memory::{region_bytes, usable_regions, MemoryManager, Reservations};
use crate::kernel::scheduler::{
    earliest_timer, has_timer, lemma_without_lane, with_lane, without_lane, without_lanes, Sched,
    Scheduler,
};
use crate::kernel::selector::{pool_of, selected, total_weight};
use crate::sorted_map::SortedMap;

verus! {

/// How a poll of a lane ended.
#[derive(Debug, Clone, Copy, PartialEq, Eq, Structural)]
pub enum LanePoll {
    /// The lane ran to its end.
    Completed,
    /// The lane waits or yielded.
    Pending,
    /// There is no such lane.
    NotFound,
}

/// The state of a kernel.
pub ghost struct Running {
    pub sched: Sched,
    pub lanes: Set<u64>,
    pub max_lanes: nat,
    pub next_lane: u64,
    pub memory: Reservations,
    pub boundaries: Boundaries,
    pub channels: Requests,
}

/// The running kernel: scheduler, lanes in flight, memory accounting, and the
/// isolation-boundary and channel registries.
pub struct Kernel {
    scheduler: Scheduler,
    lanes: SortedMap<bool>,
    max_lanes: usize,
    next_lane: u64,
    memory: MemoryManager,
    containers: ContainerRegistry,
    channels: ChannelRegistry,
}

impl View for Kernel {
    type V = Running;

    closed spec fn view(&self) -> Running {
        Running {
            sched: self.scheduler@,
            lanes: self.lanes@.dom(),
            max_lanes: self.max_lanes as nat,
            next_lane: self.next_lane,
            memory: self.memory@,
            boundaries: self.containers@,
            channels: self.channels@,
        }
    }
}

/// The state of a kernel at its start: nothing scheduled, the system boundary
/// established.
pub open spec fn booted(
    contexts: usize,
    seed: Seq<u8>,
    profile: CibosProfile,
    max_lanes: usize,
    regions: Seq<MemoryRegion>,
) -> Running {
    Running {
        sched: Sched {
            ready: Seq::empty(),
            stalled: Map::empty(),
            waiting: Seq::empty(),
            classes: Map::empty(),
            overrides: Map::empty(),
            stream: Stream { key: seed, at: 0 },
            now: Monotonic { nanos: 0 },
            contexts: if contexts == 0 {
                1
            } else {
                contexts as nat
            },
            profile,
            config: profile_config(profile),
        },
        lanes: Set::empty(),
        max_lanes: max_lanes as nat,
        next_lane: 1,
        memory: Reservations {
            regions: usable_regions(regions),
            total: region_bytes(usable_regions(regions)),
            reserved: 0,
            by_boundary: Map::empty(),
        },
        boundaries: (Boundaries { containers: Map::empty(), next_id: 1 }).with(
            BoundaryId(0),
            Owned::empty(application_limits(), WeightClass::System),
        ),
        channels: Requests {
            next_id: 1,
            next_request: 1,
            pending: Map::empty(),
            order: Seq::empty(),
        },
    }
}

impl Kernel {
    /// Every part is well-formed.
    pub closed spec fn parts_wf(&self) -> bool {
        &&& self.scheduler.wf()
        &&& self.lanes.wf()
        &&& self.memory.wf()
        &&& self.containers.wf()
        &&& self.channels.wf()
    }

    /// Every part is well-formed, and the lane limit is kept.
    pub open spec fn wf(&self) -> bool {
        &&& self.parts_wf()
        &&& self@.lanes.finite()
        &&& self@.lanes.len() <= self@.max_lanes
    }

    /// The scheduler.
    pub closed spec fn sched(&self) -> Scheduler {
        self.scheduler
    }

    /// Construct a kernel with `execution_contexts` execution contexts, seeded from
    /// `entropy_seed`, under `profile`, allowing up to `max_lanes` concurrent lanes.
    pub fn new(
        execution_contexts: usize,
        entropy_seed: [u8; 32],
        profile: CibosProfile,
        max_lanes: usize,
    ) -> (k: Kernel)
        ensures
            k.wf(),
            k@ == booted(
                execution_contexts,
                entropy_seed@,
                profile,
                max_lanes,
                Seq::empty(),
            ),
    {
        let none: Vec<MemoryRegion> = Vec::new();
        Kernel::assemble(execution_contexts, entropy_seed, profile, max_lanes, none.as_slice())
    }

    /// Put a kernel together. The system boundary always exists.
    fn assemble(
        execution_contexts: usize,
        entropy_seed: [u8; 32],
        profile: CibosProfile,
        max_lanes: usize,
        regions: &[MemoryRegion],
    ) -> (k: Kernel)
        ensures
            k.wf(),
            k@ == booted(execution_contexts, entropy_seed@, profile, max_lanes, regions@),
    {
        let mut containers: ContainerRegistry = ContainerRegistry::new();
        let system: KernelResult<BoundaryId> = containers.create_system(
            ResourceLimits::default_application(),
        );
        let k = Kernel {
            scheduler: Scheduler::new(execution_contexts, entropy_seed, profile),
            lanes: SortedMap::new(),
            max_lanes,
            next_lane: 1,
            memory: MemoryManager::from_regions(regions),
            containers,
            channels: ChannelRegistry::new(),
        };
        assert(k@.lanes =~= Set::<u64>::empty());
        k
    }

    /// Two-phase initialization from a firmware handoff: validate the record and
    /// build the memory map and scheduler, then establish the system isolation
    /// boundary.
    pub fn from_handoff(handoff: &HandoffData, max_lanes: usize) -> (r: KernelResult<Kernel>)
        ensures
            match record_fault(*handoff) {
                Some(e) => r == Err::<Kernel, KernelError>(KernelError::Shared(e)),
                None => match typed_regions(handoff.regions@) {
                    None => r == Err::<Kernel, KernelError>(
                        KernelError::Shared(SharedError::InvalidRegion),
                    ),
                    Some(regions) => r matches Ok(k) && k.wf() && k@ == booted(
                        handoff.execution_contexts as usize,
                        handoff.entropy_seed@,
                        handoff.profile,
                        max_lanes,
                        regions,
                    ),
                },
            },
    {
        match handoff.validate() {
            Err(e) => return Err(KernelError::Shared(e)),
            Ok(()) => {},
        }
        match handoff.typed_regions() {
            Err(e) => Err(KernelError::Shared(e)),
            Ok(regions) => Ok(
                Kernel::assemble(
                    handoff.execution_contexts as usize,
                    handoff.entropy_seed,
                    handoff.profile,
                    max_lanes,
                    regions.as_slice(),
                ),
            ),
        }
    }

    /// The memory accounting subsystem.
    pub fn memory(&self) -> (m: &MemoryManager)
        ensures
            m@ == self@.memory,
            self.wf() ==> m.wf(),
    {
        &self.memory
    }

    /// The isolation-boundary registry.
    pub fn containers(&self) -> (c: &ContainerRegistry)
        ensures
            c@ == self@.boundaries,
            self.wf() ==> c.wf(),
    {
        &self.containers
    }

    /// The isolation-boundary registry, to create boundaries in and account with.
    pub fn containers_mut(&mut self) -> (c: &mut ContainerRegistry)
        requires
            old(self).wf(),
        ensures
            c.wf(),
            c@ == old(self)@.boundaries,
            final(self)@ == (Running { boundaries: final(c)@, ..old(self)@ }),
            final(c).wf() ==> final(self).wf(),
    {
        &mut self.containers
    }

    /// The memory accounting subsystem, to reserve and release with.
    pub fn memory_mut(&mut self) -> (m: &mut MemoryManager)
        requires
            old(self).wf(),
        ensures
            m.wf(),
            m@ == old(self)@.memory,
            final(self)@ == (Running { memory: final(m)@, ..old(self)@ }),
            final(m).wf() ==> final(self).wf(),
    {
        &mut self.memory
    }

    /// Create a channel from negotiated `terms`.
    pub fn create_channel(&mut self, terms: &ChannelTerms) -> (c: Channel)
        requires
            old(self).wf(),
            old(self)@.channels.next_id < u64::MAX,
        ensures
            final(self).wf(),
            c@ == Chan::fresh(ChannelId(old(self)@.channels.next_id), terms@),
            final(self)@ == (Running {
                channels: Requests {
                    next_id: (old(self)@.channels.next_id + 1) as u64,
                    ..old(self)@.channels
                },
                ..old(self)@
            }),
    {
        self.channels.create(terms)
    }

    /// The system boundary identifier.
    pub fn system_boundary(&self) -> (id: BoundaryId)
        ensures
            id == BoundaryId(0),
    {
        BoundaryId::system()
    }

    /// The kernel interface, for lanes and channels to wait and wake through.
    pub fn interface(&mut self) -> (s: &mut Scheduler)
        requires
            old(self).wf(),
        ensures
            *s == old(self).sched(),
            s.wf(),
            final(self)@ == (Running { sched: final(s)@, ..old(self)@ }),
            final(s).wf() ==> final(self).wf(),
            final(self).sched() == *final(s),
    {
        &mut self.scheduler
    }

    /// The scheduler, for inspection.
    pub fn scheduler(&self) -> (s: &Scheduler)
        ensures
            *s == self.sched(),
            s@ == self@.sched,
            self.wf() ==> s.wf(),
    {
        &self.scheduler
    }

    /// Number of lanes currently in flight.
    pub fn lane_count(&self) -> (n: usize)
        requires
            self.wf(),
        ensures
            n == self@.lanes.len(),
    {
        self.lanes.len()
    }

    /// Whether the kernel has no ready and no stalled lanes.
    pub fn is_idle(&self) -> (r: bool)
        requires
            self.wf(),
        ensures
            r == (self@.sched.ready.len() == 0 && self@.sched.waiting.len() == 0),
    {
        self.scheduler.is_idle()
    }

    /// Take the caller-supplied `lane` in flight, in the given weight `class`, ready
    /// to run.
    pub fn spawn_on(&mut self, lane: LaneId, class: WeightClass) -> (r: KernelResult<()>)
        requires
            old(self).wf(),
        ensures
            final(self).wf(),
            if old(self)@.lanes.len() >= old(self)@.max_lanes {
                r == Err::<(), KernelError>(KernelError::Runtime(RuntimeError::LaneLimit))
                    && *final(self) == *old(self)
            } else {
                let s = old(self)@.sched;
                &&& r is Ok
                &&& final(self)@ == (Running {
                    sched: final(self)@.sched,
                    lanes: old(self)@.lanes.insert(lane.0),
                    ..old(self)@
                })
                &&& (Sched { classes: s.classes.insert(lane.0, class), ..s }).relisted(
                    final(self)@.sched,
                    with_lane(s.ready, lane),
                    s.stalled.remove(lane.0),
                )
            },
    {
        if self.lanes.len() >= self.max_lanes {
            return Err(KernelError::Runtime(RuntimeError::LaneLimit));
        }
        self.lanes.insert(lane.0, true);
        self.scheduler.register_lane(lane, class);
        self.scheduler.signal_ready(lane);
        proof {
            self.lanes.lemma_order();
            assert(self@.lanes =~= old(self)@.lanes.insert(lane.0));
        }
        Ok(())
    }

    /// Whether there is a lane id left to hand out.
    pub fn has_lane_id(&self) -> (r: bool)
        ensures
            r == (self@.next_lane < u64::MAX),
    {
        self.next_lane < 0xffff_ffff_ffff_ffff
    }

    /// Take a new lane in flight, in the given weight `class`, ready to run.
    pub fn spawn(&mut self, class: WeightClass) -> (r: KernelResult<LaneId>)
        requires
            old(self).wf(),
            old(self)@.next_lane < u64::MAX,
        ensures
            final(self).wf(),
            if old(self)@.lanes.len() >= old(self)@.max_lanes {
                r == Err::<LaneId, KernelError>(KernelError::Runtime(RuntimeError::LaneLimit))
                    && final(self)@ == old(self)@
            } else {
                let s = old(self)@.sched;
                let lane = LaneId(old(self)@.next_lane);
                &&& r == Ok::<LaneId, KernelError>(lane)
                &&& final(self)@ == (Running {
                    sched: final(self)@.sched,
                    lanes: old(self)@.lanes.insert(lane.0),
                    next_lane: (old(self)@.next_lane + 1) as u64,
                    ..old(self)@
                })
                &&& (Sched { classes: s.classes.insert(lane.0, class), ..s }).relisted(
                    final(self)@.sched,
                    with_lane(s.ready, lane),
                    s.stalled.remove(lane.0),
                )
            },
    {
        let lane: LaneId = LaneId(self.next_lane);
        match self.spawn_on(lane, class) {
            Err(e) => Err(e),
            Ok(()) => {
                self.next_lane = self.next_lane + 1;
                Ok(lane)
            },
        }
    }

    /// Take a new lane in flight whose work needs its own id (for resource waits): the
    /// work is to be built for the lane that this returns.
    pub fn spawn_with_lane(&mut self, class: WeightClass) -> (r: KernelResult<LaneId>)
        requires
            old(self).wf(),
            old(self)@.next_lane < u64::MAX,
        ensures
            final(self).wf(),
            if old(self)@.lanes.len() >= old(self)@.max_lanes {
                r == Err::<LaneId, KernelError>(KernelError::Runtime(RuntimeError::LaneLimit))
                    && final(self)@ == old(self)@
            } else {
                let s = old(self)@.sched;
                let lane = LaneId(old(self)@.next_lane);
                &&& r == Ok::<LaneId, KernelError>(lane)
                &&& final(self)@ == (Running {
                    sched: final(self)@.sched,
                    lanes: old(self)@.lanes.insert(lane.0),
                    next_lane: (old(self)@.next_lane + 1) as u64,
                    ..old(self)@
                })
                &&& (Sched { classes: s.classes.insert(lane.0, class), ..s }).relisted(
                    final(self)@.sched,
                    with_lane(s.ready, lane),
                    s.stalled.remove(lane.0),
                )
            },
    {
        self.spawn(class)
    }

    /// The lanes to poll next, taken off the ready list. Empty when no lane is
    /// ready.
    pub fn next_batch(&mut self) -> (batch: Vec<LaneId>)
        requires
            old(self).wf(),
            total_weight(pool_of(old(self)@.sched.contenders())) <= u64::MAX,
        ensures
            final(self).wf(),
            ({
                let s = old(self)@.sched;
                let (lanes, stream) = selected(s.contenders(), s.contexts, s.stream);
                &&& batch@ == lanes
                &&& final(self)@ == (Running {
                    sched: Sched { ready: without_lanes(s.ready, lanes), stream, ..s },
                    ..old(self)@
                })
            }),
    {
        self.scheduler.take_dispatch_batch()
    }

    /// Account for a poll of `lane`: a lane that completed, or is not there, is
    /// reaped.
    pub fn lane_polled(&mut self, lane: LaneId, poll: LanePoll)
        requires
            old(self).wf(),
        ensures
            final(self).wf(),
            if poll is Pending {
                *final(self) == *old(self)
            } else {
                let s = old(self)@.sched;
                &&& final(self)@ == (Running {
                    sched: final(self)@.sched,
                    lanes: old(self)@.lanes.remove(lane.0),
                    ..old(self)@
                })
                &&& (Sched {
                    classes: s.classes.remove(lane.0),
                    overrides: s.overrides.remove(lane.0),
                    ..s
                }).relisted(
                    final(self)@.sched,
                    without_lane(s.ready, lane),
                    s.stalled.remove(lane.0),
                )
            },
    {
        match poll {
            LanePoll::Pending => {},
            LanePoll::Completed | LanePoll::NotFound => {
                self.lanes.remove(lane.0);
                self.scheduler.notify_complete(lane);
                proof {
                    self.lanes.lemma_order();
                    assert(self@.lanes =~= old(self)@.lanes.remove(lane.0));
                }
            },
        }
    }

    /// Advance the monotonic clock by `delta` nanoseconds, releasing matured timer
    /// waits.
    pub fn advance_clock(&mut self, delta: u64)
        requires
            old(self).wf(),
        ensures
            final(self).wf(),
            final(self)@ == (Running { sched: final(self)@.sched, ..old(self)@ }),
            old(self)@.sched.matured(old(self)@.sched.now.plus(delta), final(self)@.sched),
    {
        self.scheduler.advance_clock(delta);
    }

    /// Idle pump: advance the clock to the next pending timer deadline (releasing
    /// matured timer waits), returning `true` if a timer was found, or `false` if no
    /// timer waits remain.
    pub fn advance_to_next_timer(&mut self) -> (r: bool)
        requires
            old(self).wf(),
        ensures
            final(self).wf(),
            r == has_timer(old(self)@.sched.stalled),
            !r ==> final(self)@ == old(self)@,
            r ==> final(self)@ == (Running { sched: final(self)@.sched, ..old(self)@ }),
            r ==> forall|d: Monotonic| #[trigger]
                earliest_timer(old(self)@.sched.stalled, d) ==> old(self)@.sched.matured(
                    if old(self)@.sched.now.nanos >= d.nanos {
                        old(self)@.sched.now
                    } else {
                        d
                    },
                    final(self)@.sched,
                ),
            r ==> exists|d: Monotonic| #[trigger] earliest_timer(old(self)@.sched.stalled, d),
    {
        self.scheduler.advance_to_next_timer()
    }
}

/// What a kernel starts with: no lane in flight, nothing to run and nothing waiting, the
/// clock at zero, at least one execution context, the profile, the seed and the lane limit
/// that it was given, the system boundary and no other, and no memory reserved of what the
/// firmware reported as usable.
pub proof fn kernel_starts_with_what_it_was_given(
    handoff: &HandoffData,
    max_lanes: usize,
    k: Kernel,
    idle: bool,
    lanes: usize,
    m: &MemoryManager,
    total: u64,
    free: u64,
    c: &ContainerRegistry,
    system: bool,
    other: BoundaryId,
    other_is: bool,
    map: Vec<MemoryRegion>,
    list: &[MemoryRegion],
    mm: MemoryManager,
    mm_total: u64,
)
    requires
        call_ensures(Kernel::from_handoff, (handoff, max_lanes), Ok(k)),
        call_ensures(HandoffData::typed_regions, (handoff,), Ok(map)),
        call_ensures(MemoryManager::from_regions, (list,), mm),
        list@ == map@,
        call_ensures(MemoryManager::total_usable, (&mm,), mm_total),
        call_ensures(Kernel::is_idle, (&k,), idle),
        call_ensures(Kernel::lane_count, (&k,), lanes),
        call_ensures(Kernel::memory, (&k,), m),
        call_ensures(MemoryManager::total_usable, (m,), total),
        call_ensures(MemoryManager::available, (m,), free),
        call_ensures(Kernel::containers, (&k,), c),
        call_ensures(ContainerRegistry::contains, (c, BoundaryId(0)), system),
        call_ensures(ContainerRegistry::contains, (c, other), other_is),
        other != BoundaryId(0),
    ensures
        handoff.magic == 0x4349_424F_5348_4F46 && handoff.version == 1,
        idle && lanes == 0,
        total == mm_total && free == total,
        system && !other_is,
        k@.max_lanes == max_lanes,
        k@.sched.profile == handoff.profile,
        k@.sched.stream.key == handoff.entropy_seed@ && k@.sched.stream.at == 0,
        k@.sched.now.nanos == 0,
        handoff.execution_contexts > 0 ==> k@.sched.contexts == handoff.execution_contexts,
        k@.sched.contexts >= 1,
        k@.boundaries.containers[0].weight_class is System,
{
}

/// A record that is not in order, or whose memory map is not, gives no kernel.
pub proof fn bad_records_give_no_kernel(
    handoff: &HandoffData,
    max_lanes: usize,
    r: KernelResult<Kernel>,
    valid: Result<(), SharedError>,
    map: Result<Vec<MemoryRegion>, SharedError>,
)
    requires
        call_ensures(Kernel::from_handoff, (handoff, max_lanes), r),
        call_ensures(HandoffData::validate, (handoff,), valid),
        call_ensures(HandoffData::typed_regions, (handoff,), map),
    ensures
        r is Ok <==> valid is Ok && map is Ok,
        valid matches Err(e) ==> r == Err::<Kernel, KernelError>(KernelError::Shared(e)),
        valid is Ok && map is Err ==> r == Err::<Kernel, KernelError>(
            KernelError::Shared(map->Err_0),
        ),
{
}

/// A lane's life. It is taken in flight exactly where fewer lanes than the limit are; it is
/// then ready, behind all others, with the weight of its class, under a number that no lane
/// had. Once it is polled to its end it is gone, from the lists of the scheduler too, and
/// makes room for another; while it is pending, nothing changes.
pub proof fn lanes_live_and_end(
    s: &mut Kernel,
    mid: Kernel,
    class: WeightClass,
    r: KernelResult<LaneId>,
    before: usize,
    between: usize,
    sched: &Scheduler,
    weight: u32,
    p: &mut Kernel,
    polled: LaneId,
    poll: LanePoll,
)
    requires
        old(s).wf(),
        old(s)@.next_lane < u64::MAX,
        mid == *final(s),
        mid.wf(),
        call_ensures(Kernel::spawn, (s, class), r),
        call_ensures(Kernel::lane_count, (&*old(s),), before),
        call_ensures(Kernel::lane_count, (&mid,), between),
        call_ensures(Kernel::scheduler, (&mid,), sched),
        r matches Ok(lane) ==> call_ensures(Scheduler::weight_for, (sched, lane), weight),
        *old(p) == mid,
        call_ensures(Kernel::lane_polled, (p, polled, poll), ()),
        !old(s)@.lanes.contains(old(s)@.next_lane),
        !old(s)@.sched.ready.contains(LaneId(old(s)@.next_lane)),
    ensures
        r is Ok <==> before < old(s)@.max_lanes,
        r is Err ==> mid@ == old(s)@,
        r matches Ok(lane) ==> {
            &&& lane.0 == old(s)@.next_lane && mid@.next_lane > lane.0
            &&& between == before + 1
            &&& mid@.lanes.contains(lane.0)
            &&& mid@.sched.ready.last() == lane
            &&& mid@.sched.ready.len() == old(s)@.sched.ready.len() + 1
            &&& !(mid@.sched.profile is Compute) ==> {
                &&& class is System ==> weight == mid@.sched.config.system_weight
                &&& class is User ==> weight == mid@.sched.config.user_weight
                &&& class is Background ==> weight == mid@.sched.config.background_weight
            }
            &&& mid@.sched.profile == old(s)@.sched.profile
            &&& mid@.sched.config == old(s)@.sched.config
            &&& mid@.memory == old(s)@.memory && mid@.boundaries == old(s)@.boundaries
        },
        poll is Pending ==> *final(p) == mid,
        !(poll is Pending) ==> {
            &&& !final(p)@.lanes.contains(polled.0)
            &&& !final(p)@.sched.ready.contains(polled)
            &&& !final(p)@.sched.stalled.dom().contains(polled.0)
            &&& forall|k: u64|
                k != polled.0 ==> (#[trigger] final(p)@.lanes.contains(k) <==> mid@.lanes.contains(
                    k,
                ))
        },
{
    lemma_without_lane(mid@.sched.ready, polled);
}

} // verus!
