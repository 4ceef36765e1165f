//! Lanes.
//!
//! A [`Lane`] is a unit of concurrency within a container. [`Lane::create`] reserves
//! a lane (and its id) up front; [`Lane::submit`] runs one task on it at a time;
//! [`Lane::join`] waits for the running task to finish; and [`Lane::destroy`] releases
//! the lane. The same lane can be reused: after a join, another task may be
//! submitted. Completion is signalled over a one-slot channel that the joiner waits
//! on.
use vstd::prelude::*;
use vstd::utf8::is_ascii_chars_encode_utf8;
use crate::abi::ids::{ChannelId, LaneId};
use crate::abi::sched::{KernelInterface, WeightClass};
use crate::abi::terms::{ChannelDirection, ChannelTerms, ProtocolError};
use crate::kernel::channel::{
    kernel_did, Chan, Channel, KernelCall, Progress, RecvStep, SendStep,
};
use crate::kernel::scheduler::{lemma_without_lane, Scheduler};
use crate::sdk::system::{Contained, IdSource, PendingSpawn, System};

verus! {

/// Errors returned by lane operations.
#[derive(Debug, Clone, Copy, PartialEq, Eq, Structural)]
pub enum LaneError {
    /// The container is already running its maximum number of lanes.
    ContainerAtCapacity,
    /// The system-wide lane limit is reached.
    SystemAtCapacity,
    /// A requested lane weight was outside the valid `1..=100` range.
    WeightOutOfRange,
    /// A task was submitted while another is still running on this lane.
    AlreadyOccupied,
    /// An operation was attempted on a lane that has been destroyed.
    LaneDestroyed,
    /// The lane was destroyed while a task is still running on it.
    LaneRunning,
}

/// The state of a lane handle.
pub ghost struct Held {
    pub id: LaneId,
    pub completion: Chan,
    pub occupied: bool,
}

/// A completion channel as it is made: room for one mark.
pub open spec fn fresh_completion(id: ChannelId) -> Chan {
    Chan {
        id,
        capacity: 1,
        max_message_bytes: 1,
        messages: Seq::empty(),
        receiver_waiter: None,
        sender_waiter: None,
        closed: false,
    }
}

/// A unit of concurrency within the container, reusable across submit and join.
pub struct Lane {
    id: LaneId,
    completion: Channel,
    occupied: bool,
}

impl View for Lane {
    type V = Held;

    closed spec fn view(&self) -> Held {
        Held { id: self.id, completion: self.completion@, occupied: self.occupied }
    }
}

/// A weight that a lane may have.
pub open spec fn valid_weight(weight: u32) -> bool {
    1 <= weight <= 100
}

impl Lane {
    /// Reserve a new lane, returning a handle to it. The lane's id is assigned
    /// immediately.
    pub fn create(system: &mut System, ids: &mut IdSource) -> (r: Result<Lane, LaneError>)
        requires
            old(system).wf(),
            old(ids)@.lane < u64::MAX,
            old(ids)@.channel < u64::MAX,
        ensures
            final(system).wf(),
            if old(system)@.active_lanes >= old(system)@.limits.max_lanes {
                &&& r == Err::<Lane, LaneError>(LaneError::ContainerAtCapacity)
                &&& final(system)@ == old(system)@
                &&& final(ids)@ == old(ids)@
            } else {
                &&& r matches Ok(lane) && lane@ == (Held {
                    id: LaneId(old(ids)@.lane),
                    completion: fresh_completion(ChannelId(old(ids)@.channel)),
                    occupied: false,
                })
                &&& final(system)@ == old(system)@.lane_taken()
                &&& final(ids)@ == old(ids)@.lane_minted().channel_minted()
            },
    {
        match system.try_reserve_lane(ids) {
            None => Err(LaneError::ContainerAtCapacity),
            Some(id) => Ok(Lane::from_reserved(system, id, ids)),
        }
    }

    /// Build a handle around an already-reserved lane id, opening its one-slot
    /// completion channel.
    fn from_reserved(system: &System, id: LaneId, ids: &mut IdSource) -> (lane: Lane)
        requires
            old(ids)@.channel < u64::MAX,
        ensures
            lane@ == (Held {
                id,
                completion: fresh_completion(ChannelId(old(ids)@.channel)),
                occupied: false,
            }),
            final(ids)@ == old(ids)@.channel_minted(),
    {
        proof {
            reveal_strlit("lane-join");
            is_ascii_chars_encode_utf8("lane-join"@);
        }
        let terms: ChannelTerms = ChannelTerms::new(
            "lane-join",
            ChannelDirection::Bidirectional,
            1,
            1,
        ).unwrap();
        let completion: Channel = system.open_channel(&terms, ids);
        Lane { id, completion, occupied: false }
    }

    /// Reserve a new lane with an explicit initial scheduling weight (`1..=100`). The
    /// kernel applies the weight only under a profile that supports per-lane
    /// weights; on others the lane keeps its class weight, and the handle is created
    /// regardless.
    pub fn create_with_weight<K: KernelInterface>(
        weight: u32,
        system: &mut System,
        ids: &mut IdSource,
        kernel: &mut K,
    ) -> (r: Result<Lane, LaneError>)
        requires
            old(system).wf(),
            old(kernel).sound(),
            old(ids)@.lane < u64::MAX,
            old(ids)@.channel < u64::MAX,
        ensures
            final(system).wf(),
            final(kernel).sound(),
            if !valid_weight(weight) || old(system)@.active_lanes
                >= old(system)@.limits.max_lanes {
                &&& r == Err::<Lane, LaneError>(
                    if !valid_weight(weight) {
                        LaneError::WeightOutOfRange
                    } else {
                        LaneError::ContainerAtCapacity
                    },
                )
                &&& final(system)@ == old(system)@
                &&& final(ids)@ == old(ids)@
                &&& *final(kernel) == *old(kernel)
            } else {
                &&& r matches Ok(lane) && lane@ == (Held {
                    id: LaneId(old(ids)@.lane),
                    completion: fresh_completion(ChannelId(old(ids)@.channel)),
                    occupied: false,
                })
                &&& final(system)@ == old(system)@.lane_taken()
                &&& final(ids)@ == old(ids)@.lane_minted().channel_minted()
                &&& exists|accepted: bool| #[trigger]
                    old(kernel).weighted(
                        LaneId(old(ids)@.lane),
                        weight,
                        *final(kernel),
                        accepted,
                    )
            },
    {
        if weight < 1 || weight > 100 {
            return Err(LaneError::WeightOutOfRange);
        }
        match system.try_reserve_lane(ids) {
            None => Err(LaneError::ContainerAtCapacity),
            Some(id) => {
                let _accepted: bool = kernel.set_lane_weight(id, weight);
                Ok(Lane::from_reserved(system, id, ids))
            },
        }
    }

    /// This lane's identifier.
    pub fn id(&self) -> (id: LaneId)
        ensures
            id == self@.id,
    {
        self.id
    }

    /// Whether a task was submitted that has not been joined.
    pub fn is_occupied(&self) -> (r: bool)
        ensures
            r == self@.occupied,
    {
        self.occupied
    }

    /// Update this lane's scheduling weight at runtime (`1..=100`). The kernel applies
    /// it only under a profile that supports dynamic weights.
    pub fn update_weight<K: KernelInterface>(&mut self, weight: u32, kernel: &mut K) -> (r: Result<
        (),
        LaneError,
    >)
        requires
            old(kernel).sound(),
        ensures
            final(kernel).sound(),
            *final(self) == *old(self),
            if !valid_weight(weight) {
                &&& r == Err::<(), LaneError>(LaneError::WeightOutOfRange)
                &&& *final(kernel) == *old(kernel)
            } else {
                r is Ok && exists|accepted: bool| #[trigger]
                    old(kernel).weighted(old(self)@.id, weight, *final(kernel), accepted)
            },
    {
        if weight < 1 || weight > 100 {
            return Err(LaneError::WeightOutOfRange);
        }
        let _accepted: bool = kernel.update_lane_weight(self.id, weight);
        assert(old(kernel).weighted(old(self)@.id, weight, *kernel, _accepted));
        Ok(())
    }

    /// Submit a task to run on this lane. Only one may run at a time: join before
    /// submitting again. The task is to call [`Lane::finish`] at its end.
    pub fn submit(&mut self, system: &mut System) -> (r: Result<(), LaneError>)
        requires
            old(system).wf(),
        ensures
            final(system).wf(),
            if old(self)@.occupied {
                &&& r == Err::<(), LaneError>(LaneError::AlreadyOccupied)
                &&& *final(self) == *old(self)
                &&& final(system)@ == old(system)@
            } else {
                &&& r is Ok
                &&& final(self)@ == (Held { occupied: true, ..old(self)@ })
                &&& final(system)@ == old(system)@.queued(
                    PendingSpawn {
                        class: WeightClass::User,
                        lane: old(self)@.id,
                        release_on_complete: false,
                    },
                )
            },
    {
        if self.occupied {
            return Err(LaneError::AlreadyOccupied);
        }
        system.spawn_on_reserved(WeightClass::User, self.id);
        self.occupied = true;
        Ok(())
    }

    /// Signal that the task on this lane has finished, so that a joiner is released.
    /// To be polled until done.
    pub fn finish<K: KernelInterface>(&mut self, kernel: &mut K) -> (p: Progress<
        Result<(), ProtocolError>,
    >)
        requires
            old(kernel).sound(),
        ensures
            final(kernel).sound(),
            ({
                let (after, step, call) = old(self)@.completion.send(old(self)@.id, seq![1u8]);
                &&& final(self)@ == (Held { completion: after, ..old(self)@ })
                &&& kernel_did(*old(kernel), call, *final(kernel))
                &&& p == match step {
                    SendStep::Sent => Progress::Ready(Ok::<(), ProtocolError>(())),
                    SendStep::Full => Progress::Pending,
                    _ => Progress::Ready(Err(ProtocolError::ChannelClosed)),
                }
            }),
    {
        let mark: [u8; 1] = [1];
        assert(mark@ =~= seq![1u8]);
        match self.completion.try_send(self.id, &mark, kernel) {
            SendStep::Sent => Progress::Ready(Ok(())),
            SendStep::Full => Progress::Pending,
            SendStep::Closed | SendStep::TooLarge => Progress::Ready(
                Err(ProtocolError::ChannelClosed),
            ),
        }
    }

    /// Wait on behalf of `joiner` for the lane's running task to finish. Ready at
    /// once if none is running. Afterwards the lane is free to accept another task.
    pub fn join<K: KernelInterface>(&mut self, joiner: LaneId, kernel: &mut K) -> (p: Progress<()>)
        requires
            old(kernel).sound(),
        ensures
            final(kernel).sound(),
            if !old(self)@.occupied {
                &&& p == Progress::Ready(())
                &&& *final(self) == *old(self)
                &&& *final(kernel) == *old(kernel)
            } else {
                let (after, got, call) = old(self)@.completion.recv(joiner);
                &&& kernel_did(*old(kernel), call, *final(kernel))
                &&& final(self)@ == (Held {
                    completion: after,
                    occupied: got is Empty,
                    ..old(self)@
                })
                &&& p == if got is Empty {
                    Progress::Pending
                } else {
                    Progress::Ready(())
                }
            },
    {
        if !self.occupied {
            return Progress::Ready(());
        }
        match self.completion.try_recv(joiner, kernel) {
            RecvStep::Empty => Progress::Pending,
            RecvStep::Message(_) | RecvStep::Closed => {
                self.occupied = false;
                Progress::Ready(())
            },
        }
    }

    /// Destroy the lane. Its slot is released even if a task is still running on it,
    /// which is an error: join before destroying to be sure the work finished.
    pub fn destroy(self, system: &mut System) -> (r: Result<(), LaneError>)
        requires
            old(system).wf(),
        ensures
            final(system).wf(),
            final(system)@ == old(system)@.lane_released(),
            r == if self@.occupied {
                Err::<(), LaneError>(LaneError::LaneRunning)
            } else {
                Ok(())
            },
    {
        system.release_reserved_lane();
        if self.occupied {
            Err(LaneError::LaneRunning)
        } else {
            Ok(())
        }
    }
}

/// A joiner that waits is released when the task finishes, and its next poll frees
/// the lane.
pub proof fn join_waits_for_the_task(h: Held, joiner: LaneId)
    requires
        h.occupied,
        h.completion.messages.len() == 0,
        !h.completion.closed,
        h.completion.capacity > 0,
        h.completion.max_message_bytes > 0,
    ensures
        ({
            let (parked, got, _park) = h.completion.recv(joiner);
            let (told, step, call) = parked.send(h.id, seq![1u8]);
            &&& got is Empty
            &&& step is Sent
            &&& call == KernelCall::Release(joiner)
            &&& told.recv(joiner).1 is Message
            &&& told.recv(joiner).0.messages.len() == 0
        }),
{
}

/// Creating a lane and destroying it leaves the container's lanes as they were, and
/// a container at its limit creates none.
pub proof fn lanes_are_bounded(s: Contained)
    requires
        s.active_lanes < s.limits.max_lanes,
    ensures
        s.lane_taken().active_lanes <= s.limits.max_lanes,
        s.lane_taken().lane_released() == s,
{
}

/// A lane is created exactly where its container has fewer than its limit allows; it has a
/// number of its own, counts for the container, and is free. Given up, it counts no more.
/// Giving up a lane that still works is reported.
pub proof fn lanes_count_for_their_container(
    s: &mut System,
    mid: System,
    ids: &mut IdSource,
    r: Result<Lane, LaneError>,
    lane: Lane,
    before: u32,
    between: u32,
    d: &mut System,
    end: System,
    q: Result<(), LaneError>,
    after: u32,
)
    requires
        old(s).wf(),
        old(ids)@.lane < u64::MAX,
        mid == *final(s),
        call_ensures(Lane::create, (s, ids), r),
        call_ensures(System::active_lanes, (&*old(s),), before),
        call_ensures(System::active_lanes, (&mid,), between),
        r == Ok::<Lane, LaneError>(lane) || r is Err,
        *old(d) == mid,
        end == *final(d),
        call_ensures(Lane::destroy, (lane, d), q),
        call_ensures(System::active_lanes, (&end,), after),
    ensures
        r is Ok <==> before < old(s)@.limits.max_lanes,
        r matches Err(e) ==> e is ContainerAtCapacity && between == before,
        r is Ok ==> {
            &&& between == before + 1 && after == before
            &&& q is Ok
            &&& lane@.id.0 == old(ids)@.lane && final(ids)@.lane == old(ids)@.lane + 1
            &&& !lane@.occupied
            &&& lane@.completion.messages.len() == 0 && !lane@.completion.closed
        },
        lane@.occupied ==> q == Err::<(), LaneError>(LaneError::LaneRunning),
        end@.limits == old(s)@.limits,
{
}

/// A lane works on one task at a time. A free lane takes a task, which is queued to start on
/// it as user work, and is then occupied; an occupied one refuses. It is free again once the
/// task has finished and was joined, and until it has finished the joiner waits.
pub proof fn lane_works_on_one_task(
    l: &mut Lane,
    s: &mut System,
    r: Result<(), LaneError>,
    j: &mut Lane,
    joiner: LaneId,
    k: &mut Scheduler,
    early: Progress<()>,
    f: &mut Lane,
    m: &mut Scheduler,
    told: Progress<Result<(), ProtocolError>>,
    w: &mut Lane,
    n: &mut Scheduler,
    late: Progress<()>,
)
    requires
        old(s).wf() && old(k).wf(),
        call_ensures(Lane::submit, (l, s), r),
        !old(l)@.occupied,
        old(l)@.completion.messages.len() == 0 && !old(l)@.completion.closed
            && old(l)@.completion.capacity == 1 && old(l)@.completion.max_message_bytes == 1,
        *old(j) == *final(l),
        call_ensures(Lane::join::<Scheduler>, (j, joiner, k), early),
        *old(f) == *final(j),
        *old(m) == *final(k),
        call_ensures(Lane::finish::<Scheduler>, (f, m), told),
        *old(w) == *final(f),
        *old(n) == *final(m),
        call_ensures(Lane::join::<Scheduler>, (w, joiner, n), late),
    ensures
        r is Ok,
        final(l)@.occupied,
        final(s)@.pending.len() == old(s)@.pending.len() + 1,
        final(s)@.pending.last().lane == old(l)@.id && final(s)@.pending.last().class is User,
        early is Pending && final(j)@.occupied,
        final(k)@.stalled.dom().contains(joiner.0) && !final(k)@.ready.contains(joiner),
        told matches Progress::Ready(Ok(_)),
        final(m)@.ready.contains(joiner),
        late == Progress::Ready(()),
        !final(w)@.occupied && final(w)@.id == old(l)@.id,
{
    lemma_without_lane(old(k)@.ready, joiner);
    let ready = old(m)@.ready;
    assert(ready.push(joiner)[ready.len() as int] == joiner);
}

/// Weights of lanes run from 1 to 100: any other is refused and changes nothing, and one
/// within reaches the scheduler for that lane.
pub proof fn weights_run_from_1_to_100(
    l: &mut Lane,
    weight: u32,
    k: &mut Scheduler,
    after: Scheduler,
    r: Result<(), LaneError>,
    w: u32,
)
    requires
        old(k).wf(),
        after == *final(k),
        call_ensures(Lane::update_weight::<Scheduler>, (l, weight, k), r),
        call_ensures(Scheduler::weight_for, (&after, old(l)@.id), w),
    ensures
        r is Ok <==> 1 <= weight && weight <= 100,
        r matches Err(e) ==> e is WeightOutOfRange && after == *old(k),
        r is Ok && old(k)@.profile is Compute ==> w == weight,
        *final(l) == *old(l),
{
}

} // verus!
