//! The system handle.
//!
//! A [`System`] is what one container has of the machine: it spawns concurrent tasks,
//! opens channels, and knows its own resource limits and counts. Spawns are queued
//! rather than applied at once: a task that spawns a child runs inside a poll, and the
//! host installs the child on its next scheduling pass.
use vstd::prelude::*;
use crate::abi::ids::{BoundaryId, ChannelId, LaneId};
use crate::abi::limits::ResourceLimits;
use crate::abi::sched::{KernelInterface, Monotonic, WeightClass};
use crate::abi::terms::ChannelTerms;
use crate::kernel::channel::{Chan, Channel};
use crate::kernel::error::SharedError;
use crate::sdk::error::{SdkError, SdkResult};
use crate::sdk::fs::{Filesystem, Stored};
use crate::sdk::net::{Fabric, Lattice};
use crate::sdk::time::Sleep;

verus! {

/// A source of lane and channel ids, unique across every container of one kernel.
pub struct IdSource {
    next_lane: u64,
    next_channel: u64,
}

/// The next ids of a source.
pub ghost struct NextIds {
    pub lane: u64,
    pub channel: u64,
}

impl View for IdSource {
    type V = NextIds;

    closed spec fn view(&self) -> NextIds {
        NextIds { lane: self.next_lane, channel: self.next_channel }
    }
}

impl NextIds {
    /// The ids after a lane id was handed out.
    pub open spec fn lane_minted(self) -> NextIds {
        NextIds { lane: (self.lane + 1) as u64, ..self }
    }

    /// The ids after a channel id was handed out.
    pub open spec fn channel_minted(self) -> NextIds {
        NextIds { channel: (self.channel + 1) as u64, ..self }
    }
}

impl IdSource {
    /// A fresh id source, ids starting at 1.
    pub fn new() -> (ids: IdSource)
        ensures
            ids@ == (NextIds { lane: 1, channel: 1 }),
    {
        IdSource { next_lane: 1, next_channel: 1 }
    }

    /// Whether there is a lane id left to hand out.
    pub fn has_lane_id(&self) -> (r: bool)
        ensures
            r == (self@.lane < u64::MAX),
    {
        self.next_lane < 0xffff_ffff_ffff_ffff
    }

    /// Whether there are `n` channel ids left to hand out.
    pub fn has_channel_ids(&self, n: u64) -> (r: bool)
        ensures
            r == (self@.channel + n <= u64::MAX),
    {
        n <= 0xffff_ffff_ffff_ffff - self.next_channel
    }

    /// Hand out a lane id.
    pub fn mint_lane(&mut self) -> (id: u64)
        requires
            old(self)@.lane < u64::MAX,
        ensures
            id == old(self)@.lane,
            final(self)@ == old(self)@.lane_minted(),
    {
        let id: u64 = self.next_lane;
        self.next_lane = id + 1;
        id
    }

    /// Hand out a channel id.
    pub fn mint_channel(&mut self) -> (id: u64)
        requires
            old(self)@.channel < u64::MAX,
        ensures
            id == old(self)@.channel,
            final(self)@ == old(self)@.channel_minted(),
    {
        let id: u64 = self.next_channel;
        self.next_channel = id + 1;
        id
    }
}

impl Default for IdSource {
    fn default() -> (ids: IdSource)
        ensures
            ids@ == (NextIds { lane: 1, channel: 1 }),
    {
        IdSource::new()
    }
}

/// No id is handed out twice: an id is below all that come after it.
pub proof fn ids_are_unique(ids: NextIds)
    requires
        ids.lane < u64::MAX,
        ids.channel < u64::MAX,
    ensures
        ids.lane < ids.lane_minted().lane,
        ids.lane_minted().channel == ids.channel,
        ids.channel < ids.channel_minted().channel,
        ids.channel_minted().lane == ids.lane,
{
}

/// A spawn that awaits installation by the host: the lane that the task runs on, its
/// weight class, and whether the lane's slot is released when the task completes.
#[derive(Debug, Clone, Copy, PartialEq, Eq, Structural)]
pub struct PendingSpawn {
    /// The weight class of the task.
    pub class: WeightClass,
    /// The lane that it runs on.
    pub lane: LaneId,
    /// Whether its completion releases the lane's slot.
    pub release_on_complete: bool,
}

/// The state of a container.
pub ghost struct Contained {
    pub limits: ResourceLimits,
    pub boundary: BoundaryId,
    pub active_lanes: u32,
    pub local_channels: u32,
    pub outbound_channels: u32,
    pub inbound_channels: u32,
    pub pending: Seq<PendingSpawn>,
    pub filesystem: Seq<Stored>,
    pub lattice: Fabric,
}

/// One less, but not below zero.
pub open spec fn one_less(n: u32) -> u32 {
    if n > 0 {
        (n - 1) as u32
    } else {
        0
    }
}

impl Contained {
    /// A container in which nothing has happened yet.
    pub open spec fn fresh(limits: ResourceLimits, boundary: BoundaryId) -> Contained {
        Contained {
            limits,
            boundary,
            active_lanes: 0,
            local_channels: 0,
            outbound_channels: 0,
            inbound_channels: 0,
            pending: Seq::empty(),
            filesystem: Seq::empty(),
            lattice: Fabric::empty(),
        }
    }

    /// One more lane slot in use.
    pub open spec fn lane_taken(self) -> Contained {
        Contained { active_lanes: (self.active_lanes + 1) as u32, ..self }
    }

    /// One lane slot fewer in use.
    pub open spec fn lane_released(self) -> Contained {
        Contained { active_lanes: one_less(self.active_lanes), ..self }
    }

    /// A spawn queued.
    pub open spec fn queued(self, spawn: PendingSpawn) -> Contained {
        Contained { pending: self.pending.push(spawn), ..self }
    }
}

/// One container's connection to the machine.
pub struct System {
    limits: ResourceLimits,
    boundary: BoundaryId,
    active_lanes: u32,
    local_channels: u32,
    outbound_channels: u32,
    inbound_channels: u32,
    pending: Vec<PendingSpawn>,
    filesystem: Filesystem,
    lattice: Lattice,
}

impl View for System {
    type V = Contained;

    closed spec fn view(&self) -> Contained {
        Contained {
            limits: self.limits,
            boundary: self.boundary,
            active_lanes: self.active_lanes,
            local_channels: self.local_channels,
            outbound_channels: self.outbound_channels,
            inbound_channels: self.inbound_channels,
            pending: self.pending@,
            filesystem: self.filesystem@,
            lattice: self.lattice@,
        }
    }
}

impl System {
    /// The filesystem and the fabric are well-formed.
    pub closed spec fn wf(&self) -> bool {
        self.filesystem.wf() && self.lattice.wf()
    }

    /// Construct a system with the container's resource limits and the isolation
    /// boundary that it runs in.
    pub fn new(limits: ResourceLimits, boundary: BoundaryId) -> (s: System)
        ensures
            s.wf(),
            s@ == Contained::fresh(limits, boundary),
    {
        System {
            limits,
            boundary,
            active_lanes: 0,
            local_channels: 0,
            outbound_channels: 0,
            inbound_channels: 0,
            pending: Vec::new(),
            filesystem: Filesystem::new(),
            lattice: Lattice::new(),
        }
    }

    /// The isolation boundary (container id) this application runs in.
    pub fn boundary(&self) -> (b: BoundaryId)
        ensures
            b == self@.boundary,
    {
        self.boundary
    }

    /// The network fabric (Lattice), which all tasks of this system share.
    pub fn lattice(&mut self) -> (net: &mut Lattice)
        requires
            old(self).wf(),
        ensures
            net.wf(),
            net@ == old(self)@.lattice,
            final(self)@ == (Contained { lattice: final(net)@, ..old(self)@ }),
            final(net).wf() ==> final(self).wf(),
    {
        &mut self.lattice
    }

    /// The filesystem, which all tasks of this system share.
    pub fn filesystem(&mut self) -> (fs: &mut Filesystem)
        requires
            old(self).wf(),
        ensures
            fs.wf(),
            fs@ == old(self)@.filesystem,
            final(self)@ == (Contained { filesystem: final(fs)@, ..old(self)@ }),
            final(fs).wf() ==> final(self).wf(),
    {
        &mut self.filesystem
    }

    /// This application's resource limits.
    pub fn resource_limits(&self) -> (l: ResourceLimits)
        ensures
            l == self@.limits,
    {
        self.limits
    }

    /// The current monotonic time.
    pub fn now<K: KernelInterface>(&self, kernel: &K) -> (t: Monotonic)
        ensures
            t == kernel.time(),
    {
        kernel.now()
    }

    /// A wait of `duration` nanoseconds from now, on behalf of `lane`, to be polled
    /// until the kernel clock passes the deadline.
    pub fn sleep<K: KernelInterface>(&self, lane: LaneId, duration: u64, kernel: &K) -> (s: Sleep)
        ensures
            s == (Sleep { lane, deadline: kernel.time().plus(duration) }),
    {
        Sleep { lane, deadline: kernel.now().saturating_add(duration) }
    }

    /// Open a channel with the given terms.
    pub fn open_channel(&self, terms: &ChannelTerms, ids: &mut IdSource) -> (c: Channel)
        requires
            old(ids)@.channel < u64::MAX,
        ensures
            c@ == Chan::fresh(ChannelId(old(ids)@.channel), terms@),
            final(ids)@ == old(ids)@.channel_minted(),
    {
        let id: u64 = ids.mint_channel();
        Channel::new(ChannelId::new(id), terms)
    }

    /// Hand out the next lane id and count it as a slot in use.
    fn mint_lane_counted(&mut self, ids: &mut IdSource) -> (lane: LaneId)
        requires
            old(self)@.active_lanes < u32::MAX,
            old(ids)@.lane < u64::MAX,
        ensures
            old(self).wf() ==> final(self).wf(),
            lane == LaneId(old(ids)@.lane),
            final(ids)@ == old(ids)@.lane_minted(),
            final(self)@ == old(self)@.lane_taken(),
    {
        let id: u64 = ids.mint_lane();
        self.active_lanes = self.active_lanes + 1;
        LaneId::new(id)
    }

    /// Spawn a concurrent task in the given weight `class`, and say on which lane it
    /// will run. Fire-and-forget: its slot is released when the task completes.
    pub fn spawn(&mut self, class: WeightClass, ids: &mut IdSource) -> (lane: LaneId)
        requires
            old(self).wf(),
            old(self)@.active_lanes < u32::MAX,
            old(ids)@.lane < u64::MAX,
        ensures
            final(self).wf(),
            lane == LaneId(old(ids)@.lane),
            final(ids)@ == old(ids)@.lane_minted(),
            final(self)@ == old(self)@.lane_taken().queued(
                PendingSpawn { class, lane, release_on_complete: true },
            ),
    {
        let lane: LaneId = self.mint_lane_counted(ids);
        self.pending.push(PendingSpawn { class, lane, release_on_complete: true });
        lane
    }

    /// Spawn a concurrent task that needs its own lane id (to send or receive on
    /// channels): the task is to be built for the lane that this returns.
    /// Fire-and-forget: its slot is released when the task completes.
    pub fn spawn_with_lane(&mut self, class: WeightClass, ids: &mut IdSource) -> (lane: LaneId)
        requires
            old(self).wf(),
            old(self)@.active_lanes < u32::MAX,
            old(ids)@.lane < u64::MAX,
        ensures
            final(self).wf(),
            lane == LaneId(old(ids)@.lane),
            final(ids)@ == old(ids)@.lane_minted(),
            final(self)@ == old(self)@.lane_taken().queued(
                PendingSpawn { class, lane, release_on_complete: true },
            ),
    {
        self.spawn(class, ids)
    }

    /// Convenience: spawn a user-class task.
    pub fn spawn_user(&mut self, ids: &mut IdSource) -> (lane: LaneId)
        requires
            old(self).wf(),
            old(self)@.active_lanes < u32::MAX,
            old(ids)@.lane < u64::MAX,
        ensures
            final(self).wf(),
            lane == LaneId(old(ids)@.lane),
            final(ids)@ == old(ids)@.lane_minted(),
            final(self)@ == old(self)@.lane_taken().queued(
                PendingSpawn { class: WeightClass::User, lane, release_on_complete: true },
            ),
    {
        self.spawn(WeightClass::User, ids)
    }

    /// Try to reserve a lane slot, returning its id. `None` if the container is
    /// already at its `max_lanes` limit. The slot is held until it is released.
    pub fn try_reserve_lane(&mut self, ids: &mut IdSource) -> (r: Option<LaneId>)
        requires
            old(self).wf(),
            old(ids)@.lane < u64::MAX,
        ensures
            final(self).wf(),
            if old(self)@.active_lanes >= old(self)@.limits.max_lanes {
                r is None && final(self)@ == old(self)@ && final(ids)@ == old(ids)@
            } else {
                &&& r == Some(LaneId(old(ids)@.lane))
                &&& final(ids)@ == old(ids)@.lane_minted()
                &&& final(self)@ == old(self)@.lane_taken()
            },
    {
        if self.active_lanes >= self.limits.max_lanes {
            return None;
        }
        Some(self.mint_lane_counted(ids))
    }

    /// Spawn a task on an already-reserved lane. The slot was counted at reservation,
    /// and is not released when the task completes.
    pub fn spawn_on_reserved(&mut self, class: WeightClass, lane: LaneId)
        requires
            old(self).wf(),
        ensures
            final(self).wf(),
            final(self)@ == old(self)@.queued(
                PendingSpawn { class, lane, release_on_complete: false },
            ),
    {
        self.pending.push(PendingSpawn { class, lane, release_on_complete: false });
    }

    /// Release one lane slot: a fire-and-forget task completed, or a spawn was
    /// rejected.
    pub fn note_lane_complete(&mut self)
        requires
            old(self).wf(),
        ensures
            final(self).wf(),
            final(self)@ == old(self)@.lane_released(),
    {
        if self.active_lanes > 0 {
            self.active_lanes = self.active_lanes - 1;
        }
    }

    /// Account for a poll of a task: its slot is released once it is done, if its
    /// spawn says so.
    pub fn task_polled(&mut self, done: bool, release_on_complete: bool)
        requires
            old(self).wf(),
        ensures
            final(self).wf(),
            final(self)@ == if done && release_on_complete {
                old(self)@.lane_released()
            } else {
                old(self)@
            },
    {
        if done && release_on_complete {
            self.note_lane_complete();
        }
    }

    /// Release a reserved lane slot.
    pub fn release_reserved_lane(&mut self)
        requires
            old(self).wf(),
        ensures
            final(self).wf(),
            final(self)@ == old(self)@.lane_released(),
    {
        self.note_lane_complete();
    }

    /// The number of lane slots in use.
    pub fn active_lanes(&self) -> (n: u32)
        ensures
            n == self@.active_lanes,
    {
        self.active_lanes
    }

    /// Record that an application-visible local channel was opened. Channels opened
    /// for plumbing (lane joins, doorbells) are not counted.
    pub fn note_local_channel_open(&mut self)
        requires
            old(self).wf(),
            old(self)@.local_channels < u32::MAX,
        ensures
            final(self).wf(),
            final(self)@ == (Contained {
                local_channels: (old(self)@.local_channels + 1) as u32,
                ..old(self)@
            }),
    {
        self.local_channels = self.local_channels + 1;
    }

    /// Record that an application-visible local channel was closed.
    pub fn note_local_channel_closed(&mut self)
        requires
            old(self).wf(),
        ensures
            final(self).wf(),
            final(self)@ == (Contained {
                local_channels: one_less(old(self)@.local_channels),
                ..old(self)@
            }),
    {
        if self.local_channels > 0 {
            self.local_channels = self.local_channels - 1;
        }
    }

    /// The number of application-visible local channels currently open.
    pub fn local_channel_count(&self) -> (n: u32)
        ensures
            n == self@.local_channels,
    {
        self.local_channels
    }

    /// Record that an outbound cross-container channel was established.
    pub fn note_outbound_channel_open(&mut self)
        requires
            old(self).wf(),
            old(self)@.outbound_channels < u32::MAX,
        ensures
            final(self).wf(),
            final(self)@ == (Contained {
                outbound_channels: (old(self)@.outbound_channels + 1) as u32,
                ..old(self)@
            }),
    {
        self.outbound_channels = self.outbound_channels + 1;
    }

    /// Record that an outbound cross-container channel was torn down.
    pub fn note_outbound_channel_closed(&mut self)
        requires
            old(self).wf(),
        ensures
            final(self).wf(),
            final(self)@ == (Contained {
                outbound_channels: one_less(old(self)@.outbound_channels),
                ..old(self)@
            }),
    {
        if self.outbound_channels > 0 {
            self.outbound_channels = self.outbound_channels - 1;
        }
    }

    /// The number of outbound cross-container channels currently open.
    pub fn outbound_channel_count(&self) -> (n: u32)
        ensures
            n == self@.outbound_channels,
    {
        self.outbound_channels
    }

    /// Record that an inbound cross-container channel was accepted.
    pub fn note_inbound_channel_open(&mut self)
        requires
            old(self).wf(),
            old(self)@.inbound_channels < u32::MAX,
        ensures
            final(self).wf(),
            final(self)@ == (Contained {
                inbound_channels: (old(self)@.inbound_channels + 1) as u32,
                ..old(self)@
            }),
    {
        self.inbound_channels = self.inbound_channels + 1;
    }

    /// Record that an inbound cross-container channel was torn down.
    pub fn note_inbound_channel_closed(&mut self)
        requires
            old(self).wf(),
        ensures
            final(self).wf(),
            final(self)@ == (Contained {
                inbound_channels: one_less(old(self)@.inbound_channels),
                ..old(self)@
            }),
    {
        if self.inbound_channels > 0 {
            self.inbound_channels = self.inbound_channels - 1;
        }
    }

    /// The number of inbound cross-container channels currently open.
    pub fn inbound_channel_count(&self) -> (n: u32)
        ensures
            n == self@.inbound_channels,
    {
        self.inbound_channels
    }

    /// Whether there are no queued spawns.
    pub fn pending_is_empty(&self) -> (r: bool)
        ensures
            r == (self@.pending.len() == 0),
    {
        self.pending.len() == 0
    }

    /// Take all queued spawns, in the order in which they were queued.
    pub fn take_pending(&mut self) -> (spawns: Vec<PendingSpawn>)
        requires
            old(self).wf(),
        ensures
            final(self).wf(),
            spawns@ == old(self)@.pending,
            final(self)@ == (Contained { pending: Seq::empty(), ..old(self)@ }),
    {
        let mut spawns: Vec<PendingSpawn> = Vec::new();
        core::mem::swap(&mut spawns, &mut self.pending);
        spawns
    }

    /// Validate that a proposed allocation fits this application's limits.
    pub fn check_allocation(&self, already: u64, requested: u64) -> (r: SdkResult<()>)
        ensures
            r == if already + requested <= self@.limits.memory_bytes {
                Ok::<(), SdkError>(())
            } else {
                Err(SdkError::Shared(SharedError::MemoryLimit))
            },
    {
        if self.limits.check_allocation(already, requested) {
            Ok(())
        } else {
            Err(SdkError::Shared(SharedError::MemoryLimit))
        }
    }
}

/// A lane slot that was taken and released again leaves the count as it was.
pub proof fn lane_slots_balance(s: Contained)
    requires
        s.active_lanes < u32::MAX,
    ensures
        s.lane_taken().lane_released() == s,
{
}

/// What a system counts. Each kind of channel is counted by itself: one opened is one more of
/// its kind, one closed is one fewer, and the other kinds stay as they are. A lane that is
/// spawned counts and waits to start, behind those queued before it; one whose task is done
/// counts no more, where it is not reserved.
pub proof fn systems_count_each_kind(
    l: &mut System,
    with_local: System,
    o: &mut System,
    with_out: System,
    i: &mut System,
    with_in: System,
    c: &mut System,
    closed: System,
    local: u32,
    outbound: u32,
    inbound: u32,
)
    requires
        old(l).wf() && *old(o) == *old(l) && *old(i) == *old(l),
        with_local == *final(l) && with_out == *final(o) && with_in == *final(i),
        call_ensures(System::note_local_channel_open, (l,), ()),
        call_ensures(System::note_outbound_channel_open, (o,), ()),
        call_ensures(System::note_inbound_channel_open, (i,), ()),
        *old(c) == with_local,
        closed == *final(c),
        call_ensures(System::note_local_channel_closed, (c,), ()),
        call_ensures(System::local_channel_count, (&*old(l),), local),
        call_ensures(System::outbound_channel_count, (&*old(l),), outbound),
        call_ensures(System::inbound_channel_count, (&*old(l),), inbound),
        local < u32::MAX && outbound < u32::MAX && inbound < u32::MAX,
    ensures
        with_local@.local_channels == local + 1 && with_local@.outbound_channels == outbound
            && with_local@.inbound_channels == inbound,
        with_out@.local_channels == local && with_out@.outbound_channels == outbound + 1
            && with_out@.inbound_channels == inbound,
        with_in@.local_channels == local && with_in@.outbound_channels == outbound
            && with_in@.inbound_channels == inbound + 1,
        closed@ == old(l)@,
{
}

/// Spawning and finishing.
pub proof fn spawned_lanes_are_queued_and_counted(
    s: &mut System,
    mid: System,
    class: WeightClass,
    ids: &mut IdSource,
    lane: LaneId,
    before: u32,
    between: u32,
    t: &mut System,
    spawns: Vec<PendingSpawn>,
    p: &mut System,
    end: System,
    done: bool,
    reserved: bool,
    after: u32,
)
    requires
        old(s).wf(),
        old(s)@.active_lanes < u32::MAX,
        old(ids)@.lane < u64::MAX,
        mid == *final(s),
        call_ensures(System::spawn, (s, class, ids), lane),
        call_ensures(System::active_lanes, (&*old(s),), before),
        call_ensures(System::active_lanes, (&mid,), between),
        *old(t) == mid,
        call_ensures(System::take_pending, (t,), spawns),
        *old(p) == mid,
        end == *final(p),
        call_ensures(System::task_polled, (p, done, !reserved), ()),
        call_ensures(System::active_lanes, (&end,), after),
    ensures
        between == before + 1,
        lane.0 == old(ids)@.lane && final(ids)@.lane == lane.0 + 1,
        final(ids)@.channel == old(ids)@.channel,
        spawns@.len() == old(s)@.pending.len() + 1,
        forall|k: int|
            0 <= k < old(s)@.pending.len() ==> #[trigger] spawns@[k] == old(s)@.pending[k],
        spawns@.last().lane == lane && spawns@.last().class == class
            && spawns@.last().release_on_complete,
        final(t)@.pending.len() == 0,
        done && !reserved ==> after == before,
        !done || reserved ==> after == between,
{
}

} // verus!
