//! Hosts: one or several containers over one in-process kernel.
//!
//! A host owns the kernel, the systems of its containers, and what they share: the
//! id source and the broker. Its loop is the caller's: install the queued spawns,
//! poll the batches that the kernel gives until none is left, then settle; when that
//! finds nothing more to run, the loop is over.
use vstd::prelude::*;
use crate::abi::ids::{BoundaryId, LaneId};
use crate::abi::limits::ResourceLimits;
use crate::abi::sched::{CibosProfile, Monotonic, WaitResource, WeightClass};
use crate::kernel::container::{Boundaries, Owned};
use crate::kernel::error::KernelResult;
use crate::kernel::kernel::{booted, Kernel, Running};
use crate::kernel::scheduler::{earliest_timer, has_timer, with_lane, Sched};
use crate::sdk::broker::{Brokerage, ChannelBroker};
use crate::sdk::system::{Contained, IdSource, NextIds, PendingSpawn, System};

verus! {

/// `spawn` was taken in flight: `after` has its lane, ready to run.
pub open spec fn spawned(before: Running, spawn: PendingSpawn, after: Running) -> bool {
    let s = before.sched;
    &&& after == (Running {
        sched: after.sched,
        lanes: before.lanes.insert(spawn.lane.0),
        ..before
    })
    &&& (Sched { classes: s.classes.insert(spawn.lane.0, spawn.class), ..s }).relisted(
        after.sched,
        with_lane(s.ready, spawn.lane),
        s.stalled.remove(spawn.lane.0),
    )
}

/// Whether the kernel has room for one more lane.
pub open spec fn has_room(k: Running) -> bool {
    k.lanes.len() < k.max_lanes
}

/// Installing `spawns` one after the other takes `before` to `after` and turns down
/// those for which there was no room.
pub open spec fn installs(
    before: Running,
    spawns: Seq<PendingSpawn>,
    after: Running,
    rejected: Seq<LaneId>,
) -> bool
    decreases spawns.len(),
{
    if spawns.len() == 0 {
        after == before && rejected == Seq::<LaneId>::empty()
    } else {
        exists|between: Running|
            #![trigger has_room(between)]
            if has_room(between) {
                &&& installs(before, spawns.drop_last(), between, rejected)
                &&& spawned(between, spawns.last(), after)
            } else {
                &&& rejected.len() > 0
                &&& rejected.last() == spawns.last().lane
                &&& installs(before, spawns.drop_last(), between, rejected.drop_last())
                &&& after == between
            }
    }
}

/// A container that had `n` spawns turned down.
pub open spec fn turned_down(s: Contained, n: nat) -> Contained
    decreases n,
{
    if n == 0 {
        s
    } else {
        turned_down(s, (n - 1) as nat).lane_released()
    }
}

/// Install the queued spawns of `system` into `kernel`, at their lanes. For each that
/// the kernel turns down the slot is released; the lanes of those, in order.
fn install_spawns(kernel: &mut Kernel, system: &mut System) -> (rejected: Vec<LaneId>)
    requires
        old(kernel).wf(),
        old(system).wf(),
    ensures
        final(kernel).wf(),
        final(system).wf(),
        installs(old(kernel)@, old(system)@.pending, final(kernel)@, rejected@),
        final(system)@ == turned_down(
            Contained { pending: Seq::empty(), ..old(system)@ },
            rejected@.len(),
        ),
{
    let spawns: Vec<PendingSpawn> = system.take_pending();
    let mut rejected: Vec<LaneId> = Vec::new();
    let ghost emptied = system@;
    let ghost start = kernel@;
    let mut i: usize = 0;
    assert(rejected@ =~= Seq::<LaneId>::empty());
    while i < spawns.len()
        invariant
            i <= spawns@.len(),
            kernel.wf(),
            system.wf(),
            installs(start, spawns@.subrange(0, i as int), kernel@, rejected@),
            system@ == turned_down(emptied, rejected@.len()),
        decreases spawns@.len() - i,
    {
        let spawn: PendingSpawn = spawns[i];
        let ghost between = kernel@;
        let ghost had = rejected@;
        let r: KernelResult<()> = kernel.spawn_on(spawn.lane, spawn.class);
        proof {
            let now = spawns@.subrange(0, i + 1);
            assert(now.drop_last() =~= spawns@.subrange(0, i as int));
            assert(now.last() == spawn);
        }
        if r.is_err() {
            system.note_lane_complete();
            rejected.push(spawn.lane);
            assert(rejected@.drop_last() =~= had);
            assert(!has_room(between));
        } else {
            assert(has_room(between));
        }
        i = i + 1;
    }
    assert(spawns@.subrange(0, spawns@.len() as int) =~= spawns@);
    rejected
}

/// The state of a host of one application.
pub ghost struct Hosting {
    pub kernel: Running,
    pub system: Contained,
    pub ids: NextIds,
    pub broker: Brokerage,
}

/// Runs an application against an in-process kernel.
pub struct AppHost {
    kernel: Kernel,
    system: System,
    ids: IdSource,
    broker: ChannelBroker,
}

/// A host's parts, to run tasks with.
pub struct HostParts<'a> {
    /// The kernel.
    pub kernel: &'a mut Kernel,
    /// The container's system.
    pub system: &'a mut System,
    /// The source of ids.
    pub ids: &'a mut IdSource,
    /// The rendezvous of channels.
    pub broker: &'a mut ChannelBroker,
}

impl View for AppHost {
    type V = Hosting;

    closed spec fn view(&self) -> Hosting {
        Hosting {
            kernel: self.kernel@,
            system: self.system@,
            ids: self.ids@,
            broker: self.broker@,
        }
    }
}

/// The time is that of the next timer, or was past it already.
pub open spec fn next_time(s: Sched, d: Monotonic) -> Monotonic {
    if s.now.nanos >= d.nanos {
        s.now
    } else {
        d
    }
}

/// Settling a host with `queued` spawns waiting: `more` says whether there is
/// something to run, after the clock has jumped to the next timer if there was not.
pub open spec fn settles(before: Running, queued: bool, more: bool, after: Running) -> bool {
    if queued || before.sched.ready.len() > 0 {
        more && after == before
    } else {
        &&& more == has_timer(before.sched.stalled)
        &&& !more ==> after == before
        &&& more ==> after == (Running { sched: after.sched, ..before })
        &&& more ==> exists|d: Monotonic| #[trigger] earliest_timer(before.sched.stalled, d)
        &&& more ==> forall|d: Monotonic| #[trigger]
            earliest_timer(before.sched.stalled, d) ==> before.sched.matured(
                next_time(before.sched, d),
                after.sched,
            )
    }
}

/// Whether there is more to run; jumps the clock to the next timer if nothing else is
/// left.
fn settle_kernel(kernel: &mut Kernel, queued: bool) -> (more: bool)
    requires
        old(kernel).wf(),
    ensures
        final(kernel).wf(),
        settles(old(kernel)@, queued, more, final(kernel)@),
{
    if !queued && !kernel.scheduler().has_ready() {
        kernel.advance_to_next_timer()
    } else {
        true
    }
}

impl AppHost {
    /// Every part is well-formed.
    pub closed spec fn wf(&self) -> bool {
        self.kernel.wf() && self.system.wf() && self.broker.wf()
    }

    /// Create a host with `execution_contexts` contexts, seeded from `seed`, under
    /// `profile`, allowing up to `max_lanes` lanes, granting the application
    /// `limits`. The application is registered as a user container, whose boundary is
    /// its container id.
    pub fn new(
        execution_contexts: usize,
        seed: [u8; 32],
        profile: CibosProfile,
        max_lanes: usize,
        limits: ResourceLimits,
    ) -> (h: AppHost)
        ensures
            h.wf(),
            ({
                let k = booted(execution_contexts, seed@, profile, max_lanes, Seq::empty());
                let id = BoundaryId(1);
                h@ == (Hosting {
                    kernel: with_container(k, limits),
                    system: Contained::fresh(limits, id),
                    ids: NextIds { lane: 1, channel: 1 },
                    broker: Brokerage::empty(),
                })
            }),
    {
        let mut kernel: Kernel = Kernel::new(execution_contexts, seed, profile, max_lanes);
        let boundary = kernel.containers_mut().create(limits, WeightClass::User);
        let system: System = System::new(limits, boundary);
        AppHost { kernel, system, ids: IdSource::new(), broker: ChannelBroker::new() }
    }

    /// The application's system.
    pub fn system(&mut self) -> (s: &mut System)
        requires
            old(self).wf(),
        ensures
            s.wf(),
            s@ == old(self)@.system,
            final(self)@ == (Hosting { system: final(s)@, ..old(self)@ }),
            final(s).wf() ==> final(self).wf(),
    {
        &mut self.system
    }

    /// All parts of the host, to run a task with.
    pub fn parts(&mut self) -> (p: HostParts<'_>)
        requires
            old(self).wf(),
        ensures
            p.kernel.wf(),
            p.system.wf(),
            p.broker.wf(),
            p.kernel@ == old(self)@.kernel,
            p.system@ == old(self)@.system,
            p.ids@ == old(self)@.ids,
            p.broker@ == old(self)@.broker,
            final(self)@ == (Hosting {
                kernel: final(p.kernel)@,
                system: final(p.system)@,
                ids: final(p.ids)@,
                broker: final(p.broker)@,
            }),
            (final(p.kernel).wf() && final(p.system).wf() && final(p.broker).wf())
                ==> final(self).wf(),
    {
        HostParts {
            kernel: &mut self.kernel,
            system: &mut self.system,
            ids: &mut self.ids,
            broker: &mut self.broker,
        }
    }

    /// Install the queued spawns into the kernel. For each that it turns down the
    /// slot is released; the lanes of those.
    pub fn install_pending(&mut self) -> (rejected: Vec<LaneId>)
        requires
            old(self).wf(),
        ensures
            final(self).wf(),
            installs(old(self)@.kernel, old(self)@.system.pending, final(self)@.kernel, rejected@),
            final(self)@ == (Hosting {
                kernel: final(self)@.kernel,
                system: turned_down(
                    Contained { pending: Seq::empty(), ..old(self)@.system },
                    rejected@.len(),
                ),
                ..old(self)@
            }),
    {
        install_spawns(&mut self.kernel, &mut self.system)
    }

    /// Whether the run goes on: something is queued or ready, or a lane sleeps, in
    /// which case the clock jumps to the next deadline. Otherwise the host is idle.
    pub fn settle(&mut self) -> (more: bool)
        requires
            old(self).wf(),
        ensures
            final(self).wf(),
            settles(
                old(self)@.kernel,
                old(self)@.system.pending.len() > 0,
                more,
                final(self)@.kernel,
            ),
            final(self)@ == (Hosting { kernel: final(self)@.kernel, ..old(self)@ }),
    {
        let queued: bool = !self.system.pending_is_empty();
        settle_kernel(&mut self.kernel, queued)
    }

    /// The underlying kernel.
    pub fn kernel(&self) -> (k: &Kernel)
        ensures
            k@ == self@.kernel,
            self.wf() ==> k.wf(),
    {
        &self.kernel
    }

    /// The underlying kernel, to poll lanes with.
    pub fn kernel_mut(&mut self) -> (k: &mut Kernel)
        requires
            old(self).wf(),
        ensures
            k.wf(),
            k@ == old(self)@.kernel,
            final(self)@ == (Hosting { kernel: final(k)@, ..old(self)@ }),
            final(k).wf() ==> final(self).wf(),
    {
        &mut self.kernel
    }

    /// Advance the kernel clock by `delta` nanoseconds, releasing matured timers.
    pub fn advance(&mut self, delta: u64)
        requires
            old(self).wf(),
        ensures
            final(self).wf(),
            final(self)@ == (Hosting { kernel: final(self)@.kernel, ..old(self)@ }),
            final(self)@.kernel == (Running {
                sched: final(self)@.kernel.sched,
                ..old(self)@.kernel
            }),
            old(self)@.kernel.sched.matured(
                old(self)@.kernel.sched.now.plus(delta),
                final(self)@.kernel.sched,
            ),
    {
        self.kernel.advance_clock(delta);
    }
}

/// The kernel after one more user container was registered.
pub open spec fn with_container(k: Running, limits: ResourceLimits) -> Running {
    let b = k.boundaries;
    Running {
        boundaries: Boundaries {
            next_id: (b.next_id + 1) as u64,
            ..b.with(
                BoundaryId(b.next_id),
                Owned::empty(limits, WeightClass::User),
            )
        },
        ..k
    }
}

/// The state of a host of several containers.
pub ghost struct MultiHosting {
    pub kernel: Running,
    pub systems: Seq<Contained>,
    pub ids: NextIds,
    pub broker: Brokerage,
}

/// Runs several containers over one in-process kernel. Each has its own system -- its
/// own boundary, limits, and lane and channel accounting -- while they share one
/// scheduler.
pub struct MultiContainerHost {
    kernel: Kernel,
    systems: Vec<System>,
    ids: IdSource,
    broker: ChannelBroker,
}

impl View for MultiContainerHost {
    type V = MultiHosting;

    closed spec fn view(&self) -> MultiHosting {
        MultiHosting {
            kernel: self.kernel@,
            systems: contained(self.systems@),
            ids: self.ids@,
            broker: self.broker@,
        }
    }
}

/// The states of the systems.
spec fn contained(systems: Seq<System>) -> Seq<Contained> {
    Seq::new(systems.len(), |i: int| systems[i]@)
}

/// Installing the queued spawns of each of `systems` takes `before` to `after`, and
/// each system to one with nothing queued; `rejected` lists those turned down.
pub open spec fn installs_all(
    before: Running,
    systems: Seq<Contained>,
    after: Running,
    systems_after: Seq<Contained>,
    rejected: Seq<LaneId>,
) -> bool
    decreases systems.len(),
{
    if systems.len() == 0 {
        &&& after == before
        &&& systems_after == Seq::<Contained>::empty()
        &&& rejected == Seq::<LaneId>::empty()
    } else {
        exists|between: Running, first: Seq<LaneId>, second: Seq<LaneId>|
            #![trigger installs(between, systems.last().pending, after, second), first + second]
            {
                &&& systems_after.len() == systems.len()
                &&& installs_all(
                    before,
                    systems.drop_last(),
                    between,
                    systems_after.drop_last(),
                    first,
                )
                &&& installs(between, systems.last().pending, after, second)
                &&& systems_after.last() == turned_down(
                    Contained { pending: Seq::empty(), ..systems.last() },
                    second.len(),
                )
                &&& rejected == first + second
            }
    }
}

/// Whether some system has spawns queued.
pub open spec fn any_queued(systems: Seq<Contained>) -> bool {
    exists|i: int| 0 <= i < systems.len() && (#[trigger] systems[i]).pending.len() > 0
}

impl MultiContainerHost {
    /// Every part is well-formed.
    pub closed spec fn wf(&self) -> bool {
        &&& self.kernel.wf()
        &&& self.broker.wf()
        &&& forall|i: int| 0 <= i < self.systems@.len() ==> (#[trigger] self.systems@[i]).wf()
    }

    /// Create a host with `execution_contexts` contexts, seeded from `seed`, under
    /// `profile`, allowing up to `max_lanes` lanes across all containers.
    pub fn new(
        execution_contexts: usize,
        seed: [u8; 32],
        profile: CibosProfile,
        max_lanes: usize,
    ) -> (h: MultiContainerHost)
        ensures
            h.wf(),
            h@ == (MultiHosting {
                kernel: booted(execution_contexts, seed@, profile, max_lanes, Seq::empty()),
                systems: Seq::empty(),
                ids: NextIds { lane: 1, channel: 1 },
                broker: Brokerage::empty(),
            }),
    {
        let h = MultiContainerHost {
            kernel: Kernel::new(execution_contexts, seed, profile, max_lanes),
            systems: Vec::new(),
            ids: IdSource::new(),
            broker: ChannelBroker::new(),
        };
        assert(h@.systems =~= Seq::<Contained>::empty());
        h
    }

    /// Register a new container with its own `limits`; its place among the systems.
    /// It is assigned a fresh isolation boundary.
    pub fn add_container(&mut self, limits: ResourceLimits) -> (i: usize)
        requires
            old(self).wf(),
            old(self)@.kernel.boundaries.next_id < u64::MAX,
        ensures
            final(self).wf(),
            i == old(self)@.systems.len(),
            final(self)@ == (MultiHosting {
                kernel: with_container(old(self)@.kernel, limits),
                systems: old(self)@.systems.push(
                    Contained::fresh(
                        limits,
                        BoundaryId(old(self)@.kernel.boundaries.next_id),
                    ),
                ),
                ..old(self)@
            }),
    {
        let boundary = self.kernel.containers_mut().create(limits, WeightClass::User);
        let system: System = System::new(limits, boundary);
        let i: usize = self.systems.len();
        let ghost s = system@;
        self.systems.push(system);
        assert(contained(self.systems@) =~= contained(old(self).systems@).push(s));
        i
    }

    /// How many containers there are.
    pub fn container_count(&self) -> (n: usize)
        ensures
            n == self@.systems.len(),
    {
        self.systems.len()
    }

    /// All parts of the host, with the system at place `i`, to run a task with.
    pub fn parts(&mut self, i: usize) -> (p: HostParts<'_>)
        requires
            old(self).wf(),
            i < old(self)@.systems.len(),
        ensures
            p.kernel.wf(),
            p.system.wf(),
            p.broker.wf(),
            p.kernel@ == old(self)@.kernel,
            p.system@ == old(self)@.systems[i as int],
            p.ids@ == old(self)@.ids,
            p.broker@ == old(self)@.broker,
            final(self)@ == (MultiHosting {
                kernel: final(p.kernel)@,
                systems: old(self)@.systems.update(i as int, final(p.system)@),
                ids: final(p.ids)@,
                broker: final(p.broker)@,
            }),
            (final(p.kernel).wf() && final(p.system).wf() && final(p.broker).wf())
                ==> final(self).wf(),
    {
        proof {
            assert forall|s: System|
                contained(#[trigger] self.systems@.update(i as int, s)) == contained(
                    self.systems@,
                ).update(i as int, s@) by {
                assert(contained(self.systems@.update(i as int, s)) =~= contained(
                    self.systems@,
                ).update(i as int, s@));
            }
        }
        HostParts {
            kernel: &mut self.kernel,
            system: &mut self.systems[i],
            ids: &mut self.ids,
            broker: &mut self.broker,
        }
    }

    /// Install every container's queued spawns into the kernel, container by
    /// container. For each that it turns down the slot is released; the lanes of
    /// those.
    pub fn install_pending(&mut self) -> (rejected: Vec<LaneId>)
        requires
            old(self).wf(),
        ensures
            final(self).wf(),
            installs_all(
                old(self)@.kernel,
                old(self)@.systems,
                final(self)@.kernel,
                final(self)@.systems,
                rejected@,
            ),
            final(self)@ == (MultiHosting {
                kernel: final(self)@.kernel,
                systems: final(self)@.systems,
                ..old(self)@
            }),
    {
        let mut rejected: Vec<LaneId> = Vec::new();
        let ghost start = self.kernel@;
        let ghost before = contained(self.systems@);
        let n: usize = self.systems.len();
        let mut i: usize = 0;
        proof {
            assert(before.subrange(0, 0) =~= Seq::<Contained>::empty());
            assert(contained(self.systems@).subrange(0, 0) =~= Seq::<Contained>::empty());
            assert(rejected@ =~= Seq::<LaneId>::empty());
        }
        while i < n
            invariant
                i <= n,
                n == self.systems@.len(),
                n == before.len(),
                self.wf(),
                self.ids@ == old(self).ids@,
                self.broker@ == old(self).broker@,
                forall|j: int| i <= j < n ==> #[trigger] contained(self.systems@)[j] == before[j],
                installs_all(
                    start,
                    before.subrange(0, i as int),
                    self.kernel@,
                    contained(self.systems@).subrange(0, i as int),
                    rejected@,
                ),
            decreases n - i,
        {
            let ghost first = rejected@;
            let ghost between = self.kernel@;
            let ghost had = self.systems@;
            assert(contained(had)[i as int] == before[i as int]);
            let mut turned: Vec<LaneId> = install_spawns(&mut self.kernel, &mut self.systems[i]);
            let ghost second = turned@;
            rejected.append(&mut turned);
            proof {
                let now = before.subrange(0, i + 1);
                let after = contained(self.systems@).subrange(0, i + 1);
                assert(now.drop_last() =~= before.subrange(0, i as int));
                assert(after.drop_last() =~= contained(had).subrange(0, i as int));
                assert(now.last() == before[i as int]);
                assert(installs(between, now.last().pending, self.kernel@, second));
                assert(rejected@ == first + second);
                assert forall|j: int| i + 1 <= j < n implies #[trigger] contained(
                    self.systems@,
                )[j] == before[j] by {
                    assert(contained(had)[j] == before[j]);
                }
            }
            i = i + 1;
        }
        assert(before.subrange(0, n as int) =~= before);
        assert(contained(self.systems@).subrange(0, n as int) =~= contained(self.systems@));
        rejected
    }

    /// Whether the run goes on: something is queued or ready, or a lane sleeps, in
    /// which case the clock jumps to the next deadline. Otherwise the host is idle.
    pub fn settle(&mut self) -> (more: bool)
        requires
            old(self).wf(),
        ensures
            final(self).wf(),
            settles(
                old(self)@.kernel,
                any_queued(old(self)@.systems),
                more,
                final(self)@.kernel,
            ),
            final(self)@ == (MultiHosting { kernel: final(self)@.kernel, ..old(self)@ }),
    {
        let mut queued: bool = false;
        let mut i: usize = 0;
        while i < self.systems.len()
            invariant
                i <= self.systems@.len(),
                self == old(self),
                queued == exists|j: int|
                    0 <= j < i && (#[trigger] self@.systems[j]).pending.len() > 0,
            decreases self.systems@.len() - i,
        {
            assert(self@.systems[i as int] == self.systems@[i as int]@);
            if !self.systems[i].pending_is_empty() {
                queued = true;
            }
            i = i + 1;
        }
        settle_kernel(&mut self.kernel, queued)
    }

    /// The underlying kernel.
    pub fn kernel(&self) -> (k: &Kernel)
        ensures
            k@ == self@.kernel,
            self.wf() ==> k.wf(),
    {
        &self.kernel
    }

    /// The underlying kernel, to poll lanes with.
    pub fn kernel_mut(&mut self) -> (k: &mut Kernel)
        requires
            old(self).wf(),
        ensures
            k.wf(),
            k@ == old(self)@.kernel,
            final(self)@ == (MultiHosting { kernel: final(k)@, ..old(self)@ }),
            final(k).wf() ==> final(self).wf(),
    {
        &mut self.kernel
    }

    /// Advance the kernel clock by `delta` nanoseconds, releasing matured timers.
    pub fn advance(&mut self, delta: u64)
        requires
            old(self).wf(),
        ensures
            final(self).wf(),
            final(self)@ == (MultiHosting { kernel: final(self)@.kernel, ..old(self)@ }),
            final(self)@.kernel == (Running {
                sched: final(self)@.kernel.sched,
                ..old(self)@.kernel
            }),
            old(self)@.kernel.sched.matured(
                old(self)@.kernel.sched.now.plus(delta),
                final(self)@.kernel.sched,
            ),
    {
        self.kernel.advance_clock(delta);
    }
}

/// A host that does not go on is idle: nothing queued, no lane ready, no timer
/// running.
pub proof fn stopping_means_idle(before: Running, queued: bool, after: Running)
    requires
        settles(before, queued, false, after),
    ensures
        !queued,
        after.sched.ready.len() == 0,
        !has_timer(after.sched.stalled),
{
}

/// With room for all, every spawn is installed and none is turned down.
pub proof fn room_for_all_installs_all(
    before: Running,
    spawns: Seq<PendingSpawn>,
    after: Running,
    rejected: Seq<LaneId>,
)
    requires
        installs(before, spawns, after, rejected),
        before.lanes.finite(),
        before.lanes.len() + spawns.len() <= before.max_lanes,
    ensures
        rejected.len() == 0,
        forall|i: int| 0 <= i < spawns.len() ==> after.lanes.contains((#[trigger] spawns[i]).lane.0),
        after.lanes.finite(),
        after.lanes.len() <= before.lanes.len() + spawns.len(),
        after.max_lanes == before.max_lanes,
    decreases spawns.len(),
{
    if spawns.len() > 0 {
        let init = spawns.drop_last();
        let between = choose|between: Running|
            #![trigger has_room(between)]
            if has_room(between) {
                &&& installs(before, init, between, rejected)
                &&& spawned(between, spawns.last(), after)
            } else {
                &&& rejected.len() > 0
                &&& rejected.last() == spawns.last().lane
                &&& installs(before, init, between, rejected.drop_last())
                &&& after == between
            };
        if has_room(between) {
            room_for_all_installs_all(before, init, between, rejected);
        } else {
            room_for_all_installs_all(before, init, between, rejected.drop_last());
        }
        assert forall|i: int| 0 <= i < spawns.len() implies after.lanes.contains(
            (#[trigger] spawns[i]).lane.0,
        ) by {
            if i < init.len() {
                assert(init[i] == spawns[i]);
            }
        }
    }
}

/// An installation keeps the kernel within its lane limit.
pub proof fn installing_keeps_the_lane_limit(
    before: Running,
    spawns: Seq<PendingSpawn>,
    after: Running,
    rejected: Seq<LaneId>,
)
    requires
        installs(before, spawns, after, rejected),
        before.lanes.finite(),
        before.lanes.len() <= before.max_lanes,
    ensures
        after.lanes.finite(),
        after.lanes.len() <= after.max_lanes,
        after.max_lanes == before.max_lanes,
    decreases spawns.len(),
{
    if spawns.len() > 0 {
        let init = spawns.drop_last();
        let between = choose|between: Running|
            #![trigger has_room(between)]
            if has_room(between) {
                &&& installs(before, init, between, rejected)
                &&& spawned(between, spawns.last(), after)
            } else {
                &&& rejected.len() > 0
                &&& rejected.last() == spawns.last().lane
                &&& installs(before, init, between, rejected.drop_last())
                &&& after == between
            };
        if has_room(between) {
            installing_keeps_the_lane_limit(before, init, between, rejected);
        } else {
            installing_keeps_the_lane_limit(before, init, between, rejected.drop_last());
        }
    }
}

/// A host of one application starts with a kernel under the profile and the lane limit it was
/// given, and the application in a user container of its own with the limits it was granted.
pub proof fn host_starts_with_what_it_was_given(
    contexts: usize,
    seed: [u8; 32],
    profile: CibosProfile,
    max_lanes: usize,
    limits: ResourceLimits,
    h: AppHost,
)
    requires
        call_ensures(AppHost::new, (contexts, seed, profile, max_lanes, limits), h),
    ensures
        h@.kernel.sched.profile == profile && h@.kernel.max_lanes == max_lanes,
        h@.kernel.sched.stream.key == seed@,
        h@.system.limits == limits && h@.system.boundary.0 != 0,
        h@.system.active_lanes == 0 && h@.system.pending.len() == 0,
        h@.kernel.boundaries.containers.dom().contains(h@.system.boundary.0),
        h@.kernel.boundaries.containers[h@.system.boundary.0].limits == limits,
        h@.kernel.boundaries.containers[h@.system.boundary.0].weight_class is User,
        h@.kernel.boundaries.containers.dom().contains(0),
        h@.kernel.boundaries.containers[0].weight_class is System,
{
}

/// As [`host_starts_with_what_it_was_given`], for each container that is added to a host of
/// several: it is the next in line, with a boundary that no other has and the limits it was
/// granted, and changes none of the others.
pub proof fn added_containers_are_their_own(
    h: &mut MultiContainerHost,
    limits: ResourceLimits,
    i: usize,
    n: usize,
    j: int,
)
    requires
        old(h).wf(),
        old(h)@.kernel.boundaries.next_id < u64::MAX,
        call_ensures(MultiContainerHost::add_container, (h, limits), i),
        call_ensures(MultiContainerHost::container_count, (&*old(h),), n),
        0 <= j < old(h)@.systems.len(),
    ensures
        i == n,
        final(h)@.systems.len() == n + 1,
        final(h)@.systems[i as int].limits == limits,
        final(h)@.systems[i as int].boundary.0 == old(h)@.kernel.boundaries.next_id,
        final(h)@.systems[i as int].active_lanes == 0,
        final(h)@.systems[j] == old(h)@.systems[j],
        final(h)@.kernel.boundaries.containers[final(h)@.systems[i as int].boundary.0].limits
            == limits,
        final(h)@.kernel.boundaries.containers[final(h)@.systems[i as int].boundary.0].weight_class is User,
        final(h)@.kernel.boundaries.next_id > old(h)@.kernel.boundaries.next_id,
        final(h)@.kernel.sched == old(h)@.kernel.sched,
{
}

/// Installed lanes are ready to run, each in the class it was spawned in, where the kernel
/// has room for all; a lane that none of them is keeps its class and its place.
pub proof fn installed_lanes_run_in_their_class(
    before: Running,
    spawns: Seq<PendingSpawn>,
    after: Running,
    rejected: Seq<LaneId>,
    other: LaneId,
)
    requires
        installs(before, spawns, after, rejected),
        before.lanes.finite(),
        before.lanes.len() + spawns.len() <= before.max_lanes,
        forall|i: int, j: int|
            0 <= i < j < spawns.len() ==> (#[trigger] spawns[i]).lane != (#[trigger] spawns[j]).lane,
        forall|i: int| 0 <= i < spawns.len() ==> (#[trigger] spawns[i]).lane != other,
    ensures
        forall|i: int|
            0 <= i < spawns.len() ==> {
                &&& after.sched.ready.contains((#[trigger] spawns[i]).lane)
                &&& after.sched.classes.dom().contains(spawns[i].lane.0)
                &&& after.sched.classes[spawns[i].lane.0] == spawns[i].class
                &&& !after.sched.stalled.dom().contains(spawns[i].lane.0)
            },
        after.sched.ready.contains(other) <==> before.sched.ready.contains(other),
        after.sched.classes.dom().contains(other.0) <==> before.sched.classes.dom().contains(
            other.0,
        ),
        after.sched.classes.dom().contains(other.0) ==> after.sched.classes[other.0]
            == before.sched.classes[other.0],
        after.sched.overrides == before.sched.overrides,
        after.sched.now == before.sched.now,
        after.boundaries == before.boundaries && after.memory == before.memory,
    decreases spawns.len(),
{
    if spawns.len() > 0 {
        let init = spawns.drop_last();
        let last = spawns.last();
        let between = choose|between: Running|
            #![trigger has_room(between)]
            if has_room(between) {
                &&& installs(before, init, between, rejected)
                &&& spawned(between, last, after)
            } else {
                &&& rejected.len() > 0
                &&& rejected.last() == last.lane
                &&& installs(before, init, between, rejected.drop_last())
                &&& after == between
            };
        if !has_room(between) {
            room_for_all_installs_all(before, init, between, rejected.drop_last());
        }
        assert(has_room(between));
        assert forall|i: int| 0 <= i < init.len() implies (#[trigger] init[i]).lane != other
            && init[i].lane != last.lane by {
            assert(init[i] == spawns[i]);
            assert(last == spawns[spawns.len() - 1]);
        }
        assert forall|i: int, j: int| 0 <= i < j < init.len() implies (#[trigger] init[i]).lane != (
        #[trigger] init[j]).lane by {
            assert(init[i] == spawns[i] && init[j] == spawns[j]);
        }
        installed_lanes_run_in_their_class(before, init, between, rejected, other);
        let ready = between.sched.ready;
        let now = after.sched.ready;
        assert(ready.push(last.lane)[ready.len() as int] == last.lane);
        assert forall|l: LaneId| now.contains(l) <==> ready.contains(l) || l == last.lane by {
            if ready.contains(l) {
                let i = choose|i: int| 0 <= i < ready.len() && ready[i] == l;
                assert(now[i] == l);
            }
            if now.contains(l) {
                let i = choose|i: int| 0 <= i < now.len() && now[i] == l;
                if i < ready.len() {
                    assert(ready[i] == l);
                }
            }
        }
        assert(spawns[spawns.len() - 1] == last);
        assert(last.lane != other);
        assert forall|i: int| 0 <= i < spawns.len() implies ({
            &&& after.sched.ready.contains((#[trigger] spawns[i]).lane)
            &&& after.sched.classes.dom().contains(spawns[i].lane.0)
            &&& after.sched.classes[spawns[i].lane.0] == spawns[i].class
            &&& !after.sched.stalled.dom().contains(spawns[i].lane.0)
        }) by {
            if i < init.len() {
                assert(init[i] == spawns[i]);
                assert(init[i].lane != last.lane);
            }
        }
    }
}

/// Without any room every lane is turned down, in order, and the kernel is as it was.
pub proof fn full_kernel_turns_all_down(
    before: Running,
    spawns: Seq<PendingSpawn>,
    after: Running,
    rejected: Seq<LaneId>,
)
    requires
        installs(before, spawns, after, rejected),
        before.lanes.len() >= before.max_lanes,
    ensures
        after == before,
        rejected.len() == spawns.len(),
        forall|i: int| 0 <= i < spawns.len() ==> rejected[i] == (#[trigger] spawns[i]).lane,
    decreases spawns.len(),
{
    if spawns.len() > 0 {
        let init = spawns.drop_last();
        let between = choose|between: Running|
            #![trigger has_room(between)]
            if has_room(between) {
                &&& installs(before, init, between, rejected)
                &&& spawned(between, spawns.last(), after)
            } else {
                &&& rejected.len() > 0
                &&& rejected.last() == spawns.last().lane
                &&& installs(before, init, between, rejected.drop_last())
                &&& after == between
            };
        if has_room(between) {
            full_kernel_turns_all_down(before, init, between, rejected);
        } else {
            full_kernel_turns_all_down(before, init, between, rejected.drop_last());
            assert forall|i: int| 0 <= i < spawns.len() implies rejected[i] == (
            #[trigger] spawns[i]).lane by {
                if i < init.len() {
                    assert(init[i] == spawns[i]);
                    assert(rejected.drop_last()[i] == rejected[i]);
                }
            }
        }
    }
}

/// Each spawn that is turned down gives its slot back, and nothing else of the container
/// changes; what was queued is queued no more.
pub proof fn turned_down_spawns_free_their_slots(
    h: &mut AppHost,
    rejected: Vec<LaneId>,
)
    requires
        old(h).wf(),
        call_ensures(AppHost::install_pending, (h,), rejected),
        rejected@.len() <= old(h)@.system.active_lanes,
    ensures
        final(h)@.system.active_lanes == old(h)@.system.active_lanes - rejected@.len(),
        final(h)@.system.pending.len() == 0,
        final(h)@.system.limits == old(h)@.system.limits,
        final(h)@.system.local_channels == old(h)@.system.local_channels,
        final(h)@.broker == old(h)@.broker,
{
    lemma_turned_down(
        Contained { pending: Seq::empty(), ..old(h)@.system },
        rejected@.len(),
    );
}

proof fn lemma_turned_down(s: Contained, n: nat)
    requires
        n <= s.active_lanes,
    ensures
        turned_down(s, n) == (Contained { active_lanes: (s.active_lanes - n) as u32, ..s }),
    decreases n,
{
    if n > 0 {
        lemma_turned_down(s, (n - 1) as nat);
    }
}

/// A host goes on as long as something is queued or ready, and then nothing changes, or as
/// long as a lane sleeps, and then the clock has gone to where the first of them wakes.
pub proof fn host_goes_on_while_there_is_work(h: &mut AppHost, more: bool, lane: LaneId, d: Monotonic)
    requires
        old(h).wf(),
        call_ensures(AppHost::settle, (h,), more),
    ensures
        old(h)@.system.pending.len() > 0 || old(h)@.kernel.sched.ready.len() > 0 ==> more && final(h)@ == old(h)@,
        old(h)@.kernel.sched.stalled.dom().contains(lane.0) && old(h)@.kernel.sched.stalled[lane.0]
            == WaitResource::Timer(d) ==> more,
        !more ==> final(h)@ == old(h)@ && old(h)@.system.pending.len() == 0
            && old(h)@.kernel.sched.ready.len() == 0,
        final(h)@.system == old(h)@.system,
        final(h)@.kernel.sched.now.nanos >= old(h)@.kernel.sched.now.nanos,
        old(h)@.kernel.sched.stalled.dom().contains(lane.0) && old(h)@.kernel.sched.stalled[lane.0]
            == WaitResource::Timer(d) && final(h)@.kernel.sched.now.nanos
            > old(h)@.kernel.sched.now.nanos ==> final(h)@.kernel.sched.now.nanos <= d.nanos,
{
    let s = old(h)@.kernel.sched;
    if s.stalled.dom().contains(lane.0) && s.stalled[lane.0] == WaitResource::Timer(d) {
        assert(has_timer(s.stalled));
    }
    if !(old(h)@.system.pending.len() > 0 || s.ready.len() > 0) && more {
        let e = choose|e: Monotonic| #[trigger] earliest_timer(s.stalled, e);
        assert(earliest_timer(s.stalled, e));
        assert(s.matured(next_time(s, e), final(h)@.kernel.sched));
    }
}

/// As [`host_goes_on_while_there_is_work`], of a host of several containers: a spawn that is
/// queued in any one of them, be it the first or the last, is work.
pub proof fn host_of_several_goes_on_while_there_is_work(
    h: &mut MultiContainerHost,
    more: bool,
    i: int,
)
    requires
        old(h).wf(),
        call_ensures(MultiContainerHost::settle, (h,), more),
        0 <= i < old(h)@.systems.len(),
    ensures
        old(h)@.systems[i].pending.len() > 0 || old(h)@.kernel.sched.ready.len() > 0 ==> more
            && final(h)@ == old(h)@,
        !more ==> final(h)@ == old(h)@ && old(h)@.systems[i].pending.len() == 0
            && old(h)@.kernel.sched.ready.len() == 0,
        final(h)@.systems == old(h)@.systems,
{
    if old(h)@.systems[i].pending.len() > 0 {
        assert(any_queued(old(h)@.systems));
    }
}

} // verus!
