//! Time and timer primitives.
//!
//! A sleep is a stall on a kernel timer: the lane is parked, and the kernel makes it
//! ready again when the deadline passes. Nothing busy-waits. Durations are
//! nanoseconds.
use vstd::prelude::*;
use crate::abi::ids::LaneId;
use crate::abi::sched::{KernelInterface, Monotonic, WaitResource};
use crate::kernel::channel::{kernel_did, KernelCall, Progress};
use crate::kernel::scheduler::{lemma_without_lane, Scheduler};

verus! {

/// A monotonic point in time. It never goes backwards; it is not wall-clock time.
pub type Instant = Monotonic;

/// The current monotonic time.
pub fn now<K: KernelInterface>(kernel: &K) -> (t: Instant)
    ensures
        t == kernel.time(),
{
    kernel.now()
}

/// A wait of a lane for a deadline.
#[derive(Debug, Clone, Copy, PartialEq, Eq, Structural)]
pub struct Sleep {
    /// The lane that sleeps.
    pub lane: LaneId,
    /// When it resumes.
    pub deadline: Instant,
}

/// What a poll of a sleep asks of the kernel: nothing once the deadline has come.
pub open spec fn sleep_call(s: Sleep, now: Instant) -> KernelCall {
    if now.nanos >= s.deadline.nanos {
        KernelCall::Nothing
    } else {
        KernelCall::Park(s.lane, WaitResource::Timer(s.deadline))
    }
}

impl Sleep {
    /// Whether the deadline has come. Parks the lane if it has not.
    pub fn poll<K: KernelInterface>(&self, kernel: &mut K) -> (p: Progress<()>)
        requires
            old(kernel).sound(),
        ensures
            final(kernel).sound(),
            p == if old(kernel).time().nanos >= self.deadline.nanos {
                Progress::Ready(())
            } else {
                Progress::Pending
            },
            kernel_did(*old(kernel), sleep_call(*self, old(kernel).time()), *final(kernel)),
    {
        if kernel.now().reached(self.deadline) {
            Progress::Ready(())
        } else {
            kernel.register_wait(self.lane, WaitResource::Timer(self.deadline));
            Progress::Pending
        }
    }
}

/// The time left until `instant`, or none if it is past.
pub open spec fn remaining(instant: Instant, now: Instant) -> u64 {
    if instant.nanos > now.nanos {
        (instant.nanos - now.nanos) as u64
    } else {
        0
    }
}

/// Time primitives. All stall the lane via the kernel timer.
pub struct Timer;

impl Timer {
    /// Stall `lane` for `duration` nanoseconds. A zero duration is over at once.
    pub fn sleep<K: KernelInterface>(duration: u64, lane: LaneId, kernel: &K) -> (s: Sleep)
        ensures
            s == (Sleep { lane, deadline: kernel.time().plus(duration) }),
    {
        Sleep { lane, deadline: kernel.now().saturating_add(duration) }
    }

    /// Stall `lane` until `instant`. If `instant` is already in the past, the wait is
    /// over at once.
    pub fn at<K: KernelInterface>(instant: Instant, lane: LaneId, kernel: &K) -> (s: Sleep)
        ensures
            s == (Sleep {
                lane,
                deadline: kernel.time().plus(remaining(instant, kernel.time())),
            }),
    {
        let t: Instant = kernel.now();
        let left: u64 = instant.nanos.saturating_sub(t.nanos);
        Timer::sleep(left, lane, kernel)
    }
}

/// A sleep until an instant wakes at that instant, and at once if it is past.
pub proof fn sleep_until_wakes_on_time(instant: Instant, now: Instant)
    ensures
        now.plus(remaining(instant, now)) == if instant.nanos > now.nanos {
            instant
        } else {
            now
        },
{
}

/// A sleeper resumes after at least its duration, and not before.
pub proof fn sleeper_is_not_woken_early(s: Sleep, asked: Instant, duration: u64, now: Instant)
    requires
        s.deadline == asked.plus(duration),
        sleep_call(s, now) is Nothing,
    ensures
        now.nanos >= asked.nanos + duration || now.nanos == u64::MAX,
{
}

/// The deadline elapsed before the future completed.
#[derive(Debug, Clone, Copy, PartialEq, Eq, Structural)]
pub struct TimeoutError;

/// A computation that is given up once its time has elapsed. Its timer starts when
/// the computation is first found unfinished.
#[derive(Debug, Clone, Copy, PartialEq, Eq, Structural)]
pub struct WithTimeout {
    /// The time allowed.
    pub duration: u64,
    /// The lane that runs the computation.
    pub lane: LaneId,
    /// The timer, once it runs.
    pub timer: Option<Sleep>,
}

/// Run a computation on `lane` with a timeout of `duration` nanoseconds: poll the
/// computation, and hand its progress to [`WithTimeout::poll`].
pub fn with_timeout(duration: u64, lane: LaneId) -> (w: WithTimeout)
    ensures
        w == (WithTimeout { duration, lane, timer: None }),
{
    WithTimeout { duration, lane, timer: None }
}

impl WithTimeout {
    /// The timer as of `now`.
    pub open spec fn running(self, now: Instant) -> Sleep {
        match self.timer {
            Some(t) => t,
            None => Sleep { lane: self.lane, deadline: now.plus(self.duration) },
        }
    }

    /// How the whole stands, given how far the computation came: its value if it is
    /// done, a timeout if it is not and its time has elapsed. If both are ready on
    /// the same poll, the value is preferred.
    pub fn poll<T, K: KernelInterface>(&mut self, inner: Progress<T>, kernel: &mut K) -> (p:
        Progress<Result<T, TimeoutError>>)
        requires
            old(kernel).sound(),
        ensures
            final(kernel).sound(),
            match inner {
                Progress::Ready(value) => {
                    &&& p == Progress::Ready(Ok::<T, TimeoutError>(value))
                    &&& *final(self) == *old(self)
                    &&& *final(kernel) == *old(kernel)
                },
                Progress::Pending => {
                    let now = old(kernel).time();
                    let timer = old(self).running(now);
                    &&& *final(self) == (WithTimeout { timer: Some(timer), ..*old(self) })
                    &&& kernel_did(*old(kernel), sleep_call(timer, now), *final(kernel))
                    &&& p == if now.nanos >= timer.deadline.nanos {
                        Progress::Ready(Err::<T, TimeoutError>(TimeoutError))
                    } else {
                        Progress::Pending
                    }
                },
            },
    {
        match inner {
            Progress::Ready(value) => Progress::Ready(Ok(value)),
            Progress::Pending => {
                let timer: Sleep = match self.timer {
                    Some(t) => t,
                    None => Timer::sleep(self.duration, self.lane, kernel),
                };
                self.timer = Some(timer);
                match timer.poll(kernel) {
                    Progress::Ready(()) => Progress::Ready(Err(TimeoutError)),
                    Progress::Pending => Progress::Pending,
                }
            },
        }
    }
}

/// Sleeping, under a scheduler. A sleep for a duration ends that long after it was asked for,
/// one until an instant at that instant, or at once if that is past. While it has not ended
/// the lane that sleeps waits for that end and is not ready; once it has, the sleep is done
/// and nothing is asked of the scheduler.
pub proof fn sleeping_lasts_as_asked(
    k: &Scheduler,
    lane: LaneId,
    duration: u64,
    s: Sleep,
    instant: Instant,
    t: Sleep,
    p: &mut Scheduler,
    done: Progress<()>,
)
    requires
        call_ensures(Timer::sleep::<Scheduler>, (duration, lane, k), s),
        call_ensures(Timer::at::<Scheduler>, (instant, lane, k), t),
        old(p).wf(),
        call_ensures(Sleep::poll::<Scheduler>, (&s, p), done),
    ensures
        s.lane == lane && t.lane == lane,
        k@.now.nanos + duration <= u64::MAX ==> s.deadline.nanos == k@.now.nanos + duration,
        t.deadline.nanos == if instant.nanos > k@.now.nanos {
            instant.nanos
        } else {
            k@.now.nanos
        },
        done is Pending <==> old(p)@.now.nanos < s.deadline.nanos,
        done is Pending ==> {
            &&& final(p)@.stalled.dom().contains(lane.0)
            &&& final(p)@.stalled[lane.0] == WaitResource::Timer(s.deadline)
            &&& !final(p)@.ready.contains(lane)
        },
        !(done is Pending) ==> *final(p) == *old(p),
{
    lemma_without_lane(old(p)@.ready, lane);
}

/// A timeout. Work that is done is done, however late. Work that is not is given up once the
/// duration has passed since it was first seen waiting, and not before; until then the lane
/// waits for that moment.
pub proof fn timeout_gives_up_in_time<T>(
    duration: u64,
    lane: LaneId,
    w: WithTimeout,
    x: &mut WithTimeout,
    inner: Progress<T>,
    k: &mut Scheduler,
    p: Progress<Result<T, TimeoutError>>,
    y: &mut WithTimeout,
    later: Progress<T>,
    m: &mut Scheduler,
    q: Progress<Result<T, TimeoutError>>,
)
    requires
        call_ensures(with_timeout, (duration, lane), w),
        *old(x) == w,
        old(k).wf() && old(m).wf(),
        call_ensures(WithTimeout::poll::<T, Scheduler>, (x, inner, k), p),
        inner is Pending,
        *old(y) == *final(x),
        call_ensures(WithTimeout::poll::<T, Scheduler>, (y, later, m), q),
        old(k)@.now.nanos + duration <= u64::MAX,
        duration > 0,
    ensures
        p is Pending,
        final(k)@.stalled.dom().contains(lane.0),
        final(k)@.stalled[lane.0] == WaitResource::Timer(
            Monotonic { nanos: (old(k)@.now.nanos + duration) as u64 },
        ),
        later matches Progress::Ready(value) ==> q == Progress::Ready(Ok::<T, TimeoutError>(value)),
        later is Pending ==> (q is Pending <==> old(m)@.now.nanos < old(k)@.now.nanos + duration),
        later is Pending && !(q is Pending) ==> q == Progress::Ready(
            Err::<T, TimeoutError>(TimeoutError),
        ),
{
    lemma_without_lane(old(k)@.ready, lane);
}

} // verus!
