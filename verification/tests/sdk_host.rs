use cibos::abi::ids::{BoundaryId, LaneId};
use cibos::abi::limits::ResourceLimits;
use cibos::abi::sched::{CibosProfile, KernelInterface, WeightClass};
use cibos::abi::terms::{ChannelDirection, ChannelTerms};
use cibos::kernel::channel::Progress;
use cibos::kernel::error::{KernelError, SharedError};
use cibos::kernel::kernel::LanePoll;
use cibos::sdk::channel::{
    await_channel_request, Channel, ChannelError, ChannelRequest, SendProgress, Side,
    TryReceiveError, TrySendError,
};
use cibos::sdk::container;
use cibos::sdk::error::SdkError;
use cibos::sdk::host::{AppHost, HostParts, MultiContainerHost};
use cibos::sdk::lane::{Lane, LaneError};
use cibos::sdk::meter::HeapMeter;
use cibos::sdk::system::{IdSource, System};
use cibos::sdk::time::{now, with_timeout, Sleep, TimeoutError, Timer};
use std::cell::{Cell, RefCell};
use std::collections::{BTreeMap, BTreeSet};
use std::rc::Rc;

const MILLI: u64 = 1_000_000;

/// A task: one call is one poll, and `true` means that it is done.
type Task = Box<dyn FnMut(&mut Scope) -> bool>;

/// What a task sees while it is polled.
struct Scope<'a> {
    lane: LaneId,
    parts: HostParts<'a>,
    /// Tasks that it starts, with whether their end releases their lane's slot.
    started: Vec<(LaneId, bool, Task)>,
}

impl Scope<'_> {
    fn spawn_user(&mut self, task: Task) {
        let lane = self.parts.system.spawn_user(self.parts.ids);
        self.started.push((lane, true, task));
    }

    /// Submit a task to a lane, to signal its end.
    fn submit(&mut self, lane: &Rc<RefCell<Lane>>, mut task: Task) -> Result<(), LaneError> {
        lane.borrow_mut().submit(self.parts.system)?;
        let id = lane.borrow().id();
        let lane = lane.clone();
        let mut finished = false;
        self.started.push((
            id,
            false,
            Box::new(move |scope| {
                finished = finished || task(scope);
                finished
                    && lane.borrow_mut().finish(scope.parts.kernel.interface())
                        != Progress::Pending
            }),
        ));
        Ok(())
    }
}

/// A host of containers with their tasks.
struct Machine {
    host: MultiContainerHost,
    tasks: BTreeMap<u64, (usize, bool, Task)>,
    polls: usize,
}

impl Machine {
    fn new(contexts: usize, profile: CibosProfile, max_lanes: usize) -> Machine {
        Machine {
            host: MultiContainerHost::new(contexts, [0u8; 32], profile, max_lanes),
            tasks: BTreeMap::new(),
            polls: 0,
        }
    }

    fn spawn(&mut self, container: usize, class: WeightClass, task: Task) -> LaneId {
        let parts = self.host.parts(container);
        let lane = parts.system.spawn_with_lane(class, parts.ids);
        self.tasks.insert(lane.0, (container, true, task));
        lane
    }

    fn poll(&mut self, lane: LaneId) {
        let Some((container, release, mut task)) = self.tasks.remove(&lane.0) else {
            self.host.parts(0).kernel.lane_polled(lane, LanePoll::NotFound);
            return;
        };
        self.polls += 1;
        let mut scope = Scope { lane, parts: self.host.parts(container), started: Vec::new() };
        let done = task(&mut scope);
        scope.parts.system.task_polled(done, release);
        let poll = if done { LanePoll::Completed } else { LanePoll::Pending };
        scope.parts.kernel.lane_polled(lane, poll);
        let started = scope.started;
        for (new_lane, new_release, new_task) in started {
            self.tasks.insert(new_lane.0, (container, new_release, new_task));
        }
        if !done {
            self.tasks.insert(lane.0, (container, release, task));
        }
    }

    fn run(&mut self) {
        loop {
            for lane in self.host.install_pending() {
                self.tasks.remove(&lane.0);
            }
            loop {
                let batch = self.host.parts(0).kernel.next_batch();
                if batch.is_empty() {
                    break;
                }
                for lane in batch {
                    self.poll(lane);
                }
            }
            if !self.host.settle() {
                return;
            }
        }
    }
}

/// A machine with one container.
fn single(contexts: usize, profile: CibosProfile, limits: ResourceLimits) -> Machine {
    let mut m = Machine::new(contexts, profile, 16);
    m.host.add_container(limits);
    m
}

fn terms() -> ChannelTerms {
    ChannelTerms::new("test", ChannelDirection::Bidirectional, 64, 4).unwrap()
}

#[test]
fn runs_producer_consumer_application() {
    let mut m = single(1, CibosProfile::Balanced, ResourceLimits::default_application());
    let parts = m.host.parts(0);
    let channel = Rc::new(RefCell::new(parts.system.open_channel(&terms(), parts.ids)));
    let received = Rc::new(RefCell::new(Vec::new()));

    let producer_ch = channel.clone();
    let mut next = 0u8;
    m.spawn(
        0,
        WeightClass::User,
        Box::new(move |scope| {
            let mut ch = producer_ch.borrow_mut();
            while next < 5 {
                let send = ch.send(scope.lane, vec![next]);
                match send.poll(&mut ch, scope.parts.kernel.interface()) {
                    Progress::Pending => return false,
                    Progress::Ready(r) => r.unwrap(),
                }
                next += 1;
            }
            true
        }),
    );
    let sink = received.clone();
    m.spawn(
        0,
        WeightClass::User,
        Box::new(move |scope| {
            let mut ch = channel.borrow_mut();
            while sink.borrow().len() < 5 {
                let recv = ch.recv(scope.lane);
                match recv.poll(&mut ch, scope.parts.kernel.interface()) {
                    Progress::Pending => return false,
                    Progress::Ready(msg) => sink.borrow_mut().push(msg.unwrap()[0]),
                }
            }
            true
        }),
    );
    m.run();
    assert_eq!(&*received.borrow(), &[0u8, 1, 2, 3, 4]);
}

#[test]
fn host_auto_drives_explicit_sleep() {
    let mut m = single(1, CibosProfile::Balanced, ResourceLimits::default_application());
    let woke = Rc::new(Cell::new(false));
    let w = woke.clone();
    let mut sleep: Option<Sleep> = None;
    m.spawn(
        0,
        WeightClass::User,
        Box::new(move |scope| {
            let lane = scope.lane;
            let system = &scope.parts.system;
            let kernel = scope.parts.kernel.interface();
            let s = *sleep.get_or_insert_with(|| system.sleep(lane, 50 * MILLI, kernel));
            if s.poll(kernel) == Progress::Pending {
                return false;
            }
            w.set(true);
            true
        }),
    );
    // The host loop advances the clock to the timer's deadline on its own,
    // so the sleeping task runs to completion -- no manual advance needed.
    m.run();
    assert!(woke.get(), "host auto-drove the timer to completion");
}

#[test]
fn application_can_spawn_followups() {
    // A task that spawns another task; both must run to completion.
    let mut m = single(2, CibosProfile::Performance, ResourceLimits::default_application());
    let count = Rc::new(Cell::new(0));
    let c1 = count.clone();
    m.spawn(
        0,
        WeightClass::User,
        Box::new(move |scope| {
            c1.set(c1.get() + 1);
            let c2 = c1.clone();
            scope.spawn_user(Box::new(move |_scope| {
                c2.set(c2.get() + 1);
                true
            }));
            true
        }),
    );
    m.run();
    assert_eq!(count.get(), 2, "both the task and its child ran");
    assert_eq!(m.host.parts(0).system.active_lanes(), 0);
}

#[test]
fn ambient_timer_sleep_uses_execution_context() {
    let mut m = single(1, CibosProfile::Balanced, ResourceLimits::default_application());
    let done = Rc::new(Cell::new(false));
    let elapsed_ok = Rc::new(Cell::new(false));
    let (d, e) = (done.clone(), elapsed_ok.clone());
    let mut start = None;
    m.spawn(
        0,
        WeightClass::User,
        Box::new(move |scope| {
            let lane = scope.lane;
            let kernel = scope.parts.kernel.interface();
            let (t0, sleep) = *start
                .get_or_insert_with(|| (now(kernel), Timer::sleep(100 * MILLI, lane, kernel)));
            if sleep.poll(kernel) == Progress::Pending {
                return false;
            }
            let t1 = now(kernel);
            e.set(t1.nanos - t0.nanos >= 100 * MILLI);
            d.set(true);
            true
        }),
    );
    m.run();
    assert!(done.get(), "timer resumed via auto-driven clock");
    assert!(elapsed_ok.get(), "now() reflected the elapsed sleep");
}

#[test]
fn container_reports_resource_limits_from_context() {
    let expected = ResourceLimits::default_application();
    let mut m = single(1, CibosProfile::Balanced, expected);
    let seen = Rc::new(RefCell::new(None));
    let s = seen.clone();
    m.spawn(
        0,
        WeightClass::User,
        Box::new(move |scope| {
            let limits = container::get_resource_limits(scope.parts.system);
            let limit = container::memory_limit(scope.parts.system);
            *s.borrow_mut() = Some((limits.memory_bytes, limits.max_lanes, limit));
            true
        }),
    );
    m.run();
    assert_eq!(
        *seen.borrow(),
        Some((expected.memory_bytes, expected.max_lanes, expected.memory_bytes as usize))
    );
}

#[test]
fn lane_create_submit_join_reuse() {
    // A main lane creates a worker lane, submits work, joins, then reuses
    // the same lane for a second task. Reaching count == 2 proves `join`
    // freed the lane (otherwise the second `submit` returns AlreadyOccupied).
    let mut m = single(2, CibosProfile::Balanced, ResourceLimits::default_application());
    let count = Rc::new(Cell::new(0));
    let c = count.clone();
    let made: Rc<RefCell<Option<Rc<RefCell<Lane>>>>> = Rc::new(RefCell::new(None));
    let worker = made.clone();
    let mut stage = 0;
    m.spawn(
        0,
        WeightClass::User,
        Box::new(move |scope| {
            if worker.borrow().is_none() {
                let lane = Lane::create(scope.parts.system, scope.parts.ids)
                    .ok()
                    .expect("reserve a lane");
                assert!(lane.id() != scope.lane, "worker id differs from main");
                *worker.borrow_mut() = Some(Rc::new(RefCell::new(lane)));
            }
            let lane = worker.borrow().clone().unwrap();
            while stage < 2 {
                if !lane.borrow().is_occupied() {
                    let c = c.clone();
                    let work: Task = Box::new(move |_scope| {
                        c.set(c.get() + 1);
                        true
                    });
                    scope.submit(&lane, work).expect("submit to a free lane");
                    assert_eq!(
                        lane.borrow_mut().submit(scope.parts.system),
                        Err(LaneError::AlreadyOccupied)
                    );
                }
                let joined = lane.borrow_mut().join(scope.lane, scope.parts.kernel.interface());
                if joined == Progress::Pending {
                    return false;
                }
                stage += 1;
            }
            true
        }),
    );
    m.run();
    assert_eq!(
        count.get(),
        2,
        "both submitted tasks ran, proving join freed the lane for reuse"
    );
    // The worker's slot is held until it is destroyed.
    assert_eq!(m.host.parts(0).system.active_lanes(), 1);
    let lane = made.borrow_mut().take().expect("the worker lane");
    let lane = Rc::try_unwrap(lane).ok().expect("last handle").into_inner();
    lane.destroy(m.host.parts(0).system).expect("destroy an idle lane");
    assert_eq!(m.host.parts(0).system.active_lanes(), 0);
}

#[test]
fn channel_new_local_backpressure_and_close() {
    // A producer lane sends five values through a capacity-4 channel (so the
    // fifth send back-pressures until the consumer drains), then closes it.
    // The consumer drains until `receive` gives `None`. A total of 15
    // proves every value was delivered and that close terminated the loop.
    let mut m = single(2, CibosProfile::Balanced, ResourceLimits::default_application());
    let total = Rc::new(Cell::new(0u64));
    let t = total.clone();
    let mut ends: Option<(Rc<RefCell<(Channel<u64>, Side)>>, Rc<RefCell<Lane>>)> = None;
    let mut sum = 0u64;
    let mut drained = false;
    m.spawn(
        0,
        WeightClass::User,
        Box::new(move |scope| {
            if ends.is_none() {
                let pair = Channel::<u64>::new_local(4, scope.parts.system, scope.parts.ids)
                    .ok()
                    .expect("new_local");
                let ch = Rc::new(RefCell::new(pair));
                let lane = Lane::create(scope.parts.system, scope.parts.ids)
                    .ok()
                    .expect("producer lane");
                let lane = Rc::new(RefCell::new(lane));
                let tx = ch.clone();
                let mut next = 1u64;
                let work: Task = Box::new(move |scope| {
                    let (ch, side) = &mut *tx.borrow_mut();
                    while next <= 5 {
                        match ch.send(next, scope.lane, scope.parts.kernel.interface()) {
                            SendProgress::Stalled(_) => return false,
                            SendProgress::Done(r) => r.expect("send"),
                        }
                        next += 1;
                    }
                    ch.close(side, scope.parts.system, scope.parts.kernel.interface());
                    true
                });
                scope.submit(&lane, work).expect("submit producer");
                ends = Some((ch, lane));
            }
            let (ch, lane) = ends.clone().unwrap();
            while !drained {
                match ch.borrow_mut().0.receive(scope.lane, scope.parts.kernel.interface()) {
                    Progress::Pending => return false,
                    Progress::Ready(Some(v)) => sum += v,
                    Progress::Ready(None) => drained = true,
                }
            }
            t.set(sum);
            let joined = lane.borrow_mut().join(scope.lane, scope.parts.kernel.interface());
            joined != Progress::Pending
        }),
    );
    m.run();
    assert_eq!(
        total.get(),
        15,
        "all five values delivered across back-pressure, close ended the loop"
    );
    assert_eq!(m.host.parts(0).system.local_channel_count(), 0);
}

#[test]
fn lane_weighted_create_and_update() {
    // On the Compute profile the kernel honors per-lane weights. Verifies
    // range validation, weighted creation, a runtime update, and that the
    // weighted lane still runs to completion.
    let mut m = single(2, CibosProfile::Compute, ResourceLimits::default_application());
    let ran = Rc::new(Cell::new(false));
    let parts = m.host.parts(0);
    for weight in [0, 101] {
        let r = Lane::create_with_weight(
            weight,
            parts.system,
            parts.ids,
            parts.kernel.interface(),
        );
        assert_eq!(r.err(), Some(LaneError::WeightOutOfRange));
    }
    let mut lane =
        Lane::create_with_weight(5, parts.system, parts.ids, parts.kernel.interface())
            .ok()
            .expect("valid weight");
    assert_eq!(parts.kernel.scheduler().weight_for(lane.id()), 5);
    lane.update_weight(3, parts.kernel.interface()).expect("dynamic weight update");
    assert_eq!(parts.kernel.scheduler().weight_for(lane.id()), 3);
    assert_eq!(
        lane.update_weight(0, parts.kernel.interface()),
        Err(LaneError::WeightOutOfRange)
    );
    let lane = Rc::new(RefCell::new(lane));
    let worker = lane.clone();
    let r = ran.clone();
    let mut submitted = false;
    m.spawn(
        0,
        WeightClass::User,
        Box::new(move |scope| {
            if !submitted {
                let r = r.clone();
                let work: Task = Box::new(move |_scope| {
                    r.set(true);
                    true
                });
                scope.submit(&worker, work).expect("submit");
                submitted = true;
            }
            let joined = worker.borrow_mut().join(scope.lane, scope.parts.kernel.interface());
            joined != Progress::Pending
        }),
    );
    m.run();
    assert!(ran.get(), "weighted lane ran to completion");
    let lane = Rc::try_unwrap(lane).ok().expect("last handle").into_inner();
    assert_eq!(lane.destroy(m.host.parts(0).system), Ok(()), "destroy weighted lane");
    assert_eq!(m.host.parts(0).system.active_lanes(), 0);
}

#[test]
fn container_id_is_a_real_nonsystem_boundary() {
    let mut host = AppHost::new(
        1,
        [0u8; 32],
        CibosProfile::Balanced,
        16,
        ResourceLimits::default_application(),
    );
    let a = container::id(host.system());
    let b = container::id(host.system());
    assert!(a == b && a != BoundaryId::system());
    assert!(host.kernel().containers().contains(a));
}

#[test]
fn channel_count_tracks_open_local_channels() {
    // Opening two local channels reports local == 2; closing one reports 1;
    // no cross-container channels are open.
    let mut m = single(1, CibosProfile::Balanced, ResourceLimits::default_application());
    let parts = m.host.parts(0);
    let (mut a, mut a_side) =
        Channel::<u8>::new_local(2, parts.system, parts.ids).ok().expect("channel a");
    let (_b, mut b_side) =
        Channel::<u8>::new_local(2, parts.system, parts.ids).ok().expect("channel b");
    let opened = container::channel_count(parts.system);
    a.close(&mut a_side, parts.system, parts.kernel.interface());
    let after_close = container::channel_count(parts.system);
    assert_eq!(
        (opened.local, after_close.local, after_close.inbound, after_close.outbound),
        (2, 1, 0, 0),
        "two open, one after close; no cross-container channels"
    );
    // The last handle of a closed channel counts no more.
    a_side.release(parts.system);
    assert_eq!(container::channel_count(parts.system).local, 1);
    b_side.release(parts.system);
    assert_eq!(container::channel_count(parts.system).local, 0);
}

#[test]
fn new_local_enforces_max_channels() {
    // With a container limit of two channels, the first two open and the
    // third is rejected while they are still held open.
    let limits = ResourceLimits { max_channels: 2, ..ResourceLimits::default_application() };
    let mut m = single(1, CibosProfile::Balanced, limits);
    let parts = m.host.parts(0);
    let first = Channel::<u8>::new_local(1, parts.system, parts.ids);
    let second = Channel::<u8>::new_local(1, parts.system, parts.ids);
    // Both held open, so this exceeds the ceiling of two.
    let third = Channel::<u8>::new_local(1, parts.system, parts.ids);
    assert!(first.is_ok());
    assert!(second.is_ok());
    assert_eq!(third.err(), Some(ChannelError::TermsViolation));
}

#[test]
fn multi_container_isolated_systems() {
    let mut m = Machine::new(2, CibosProfile::Balanced, 32);
    let a = m.host.add_container(ResourceLimits::default_application());
    let b = m.host.add_container(ResourceLimits::default_application());
    let observations = Rc::new(RefCell::new(Vec::new()));

    let obs_a = observations.clone();
    m.spawn(
        a,
        WeightClass::User,
        Box::new(move |scope| {
            let id = container::id(scope.parts.system);
            // Open one local channel and observe the count while it is alive.
            let ch = Channel::<u8>::new_local(1, scope.parts.system, scope.parts.ids);
            assert!(ch.is_ok());
            let local = container::channel_count(scope.parts.system).local;
            obs_a.borrow_mut().push((id, local));
            true
        }),
    );
    let obs_b = observations.clone();
    m.spawn(
        b,
        WeightClass::User,
        Box::new(move |scope| {
            let id = container::id(scope.parts.system);
            // This container opened no channels.
            let local = container::channel_count(scope.parts.system).local;
            obs_b.borrow_mut().push((id, local));
            true
        }),
    );
    m.run();

    let obs = observations.borrow();
    assert_eq!(obs.len(), 2, "both containers ran");
    assert_ne!(obs[0].0, obs[1].0, "containers have distinct boundaries");
    let counts: BTreeSet<u32> = obs.iter().map(|(_, n)| *n).collect();
    assert_eq!(
        counts,
        [0u32, 1u32].into_iter().collect(),
        "channel accounting is isolated per container (one opened a channel, the other did not)"
    );
}

const U64_MESSAGES: u64 = 1;
const TEXT_MESSAGES: u64 = 2;

#[test]
fn cross_container_channel_request_accept_flow() {
    let mut m = Machine::new(2, CibosProfile::Balanced, 32);
    let a = m.host.add_container(ResourceLimits::default_application());
    let b = m.host.add_container(ResourceLimits::default_application());
    let target: BoundaryId = m.host.parts(b).system.boundary();

    let received: Rc<RefCell<Vec<u64>>> = Rc::new(RefCell::new(Vec::new()));
    // (requester outbound count, accepter inbound count) observed while open.
    let counts = Rc::new(Cell::new((0u32, 0u32)));
    // The connections of the host, by id.
    let table: Rc<RefCell<BTreeMap<u64, Rc<RefCell<Channel<u64>>>>>> = Rc::default();

    // Accepter: await the request, accept, drain values.
    let (recv_b, counts_b, table_b) = (received.clone(), counts.clone(), table.clone());
    let mut waiting = await_channel_request();
    let mut connected: Option<Rc<RefCell<Channel<u64>>>> = None;
    m.spawn(
        b,
        WeightClass::User,
        Box::new(move |scope| {
            if connected.is_none() {
                let incoming = match waiting.poll(
                    U64_MESSAGES,
                    scope.lane,
                    scope.parts.system,
                    scope.parts.ids,
                    scope.parts.broker,
                    scope.parts.kernel.interface(),
                ) {
                    Progress::Pending => return false,
                    Progress::Ready(r) => r.expect("await request"),
                };
                assert_eq!(incoming.purpose(), "demo");
                assert_eq!(incoming.capacity(), 4);
                connected = table_b.borrow().get(&incoming.connection().0).cloned();
                let _side = incoming.accept(
                    scope.lane,
                    scope.parts.system,
                    scope.parts.broker,
                    scope.parts.kernel.interface(),
                );
                let inbound = container::channel_count(scope.parts.system).inbound;
                counts_b.set((counts_b.get().0, inbound));
            }
            let channel = connected.clone().expect("a connection");
            loop {
                let got =
                    channel.borrow_mut().receive(scope.lane, scope.parts.kernel.interface());
                match got {
                    Progress::Pending => return false,
                    Progress::Ready(Some(v)) => recv_b.borrow_mut().push(v),
                    Progress::Ready(None) => return true,
                }
            }
        }),
    );

    // Requester: request a channel to the accepter, send three values, close.
    let counts_a = counts.clone();
    let mut pending = None;
    let mut open = false;
    let mut next = 1u64;
    m.spawn(
        a,
        WeightClass::User,
        Box::new(move |scope| {
            if pending.is_none() {
                let request = ChannelRequest { target, purpose: "demo", buffer_capacity: 4 };
                let (channel, side, answer) = Channel::<u64>::request(
                    &request,
                    U64_MESSAGES,
                    scope.lane,
                    scope.parts.system,
                    scope.parts.ids,
                    scope.parts.broker,
                    scope.parts.kernel.interface(),
                )
                .ok()
                .expect("request sent");
                let connection = channel.id().0;
                let channel = Rc::new(RefCell::new(channel));
                table.borrow_mut().insert(connection, channel.clone());
                pending = Some((channel, side, answer));
            }
            let (channel, side, answer) = pending.as_mut().unwrap();
            if !open {
                match answer.poll(
                    scope.lane,
                    side,
                    scope.parts.system,
                    scope.parts.broker,
                    scope.parts.kernel.interface(),
                ) {
                    Progress::Pending => return false,
                    Progress::Ready(r) => r.expect("request accepted"),
                }
                open = true;
                let outbound = container::channel_count(scope.parts.system).outbound;
                counts_a.set((outbound, counts_a.get().1));
            }
            let mut channel = channel.borrow_mut();
            while next <= 3 {
                match channel.send(next, scope.lane, scope.parts.kernel.interface()) {
                    SendProgress::Stalled(_) => return false,
                    SendProgress::Done(r) => r.expect("send"),
                }
                next += 1;
            }
            channel.close(side, scope.parts.system, scope.parts.kernel.interface());
            true
        }),
    );

    m.run();
    assert_eq!(*received.borrow(), vec![1, 2, 3], "values crossed containers");
    assert_eq!(
        counts.get(),
        (1, 1),
        "one outbound on the requester, one inbound on the accepter"
    );
}

#[test]
fn memory_usage_tracks_allocation() {
    let system = System::new(ResourceLimits::default_application(), BoundaryId::new(1));
    let mut meter = HeapMeter::new();
    const CHUNK: usize = 4_000_000;
    meter.note_alloc(100);
    let before = container::memory_usage(&system, &meter);
    meter.note_alloc(CHUNK);
    let during = container::memory_usage(&system, &meter);
    meter.note_dealloc(CHUNK);
    let after = container::memory_usage(&system, &meter);
    assert_eq!(during.allocated_bytes, before.allocated_bytes + CHUNK as u64);
    assert_eq!(during.peak_bytes, during.allocated_bytes);
    assert_eq!(after.allocated_bytes, 100);
    assert_eq!(after.peak_bytes, during.peak_bytes);
    assert_eq!(during.limit_bytes, ResourceLimits::default_application().memory_bytes);
}

#[test]
fn single_host_installs_and_settles() {
    let mut host = AppHost::new(
        1,
        [0u8; 32],
        CibosProfile::Balanced,
        1,
        ResourceLimits::default_application(),
    );
    let parts = host.parts();
    let first = parts.system.spawn_user(parts.ids);
    let second = parts.system.spawn(WeightClass::Background, parts.ids);
    assert_eq!((first, second), (LaneId::new(1), LaneId::new(2)));
    assert_eq!(parts.system.active_lanes(), 2);
    // The kernel takes one lane: the other is turned down, and its slot released.
    assert_eq!(host.install_pending(), vec![second]);
    assert_eq!(host.system().active_lanes(), 1);
    assert!(host.settle());
    assert_eq!(host.parts().kernel.next_batch(), vec![first]);
    // The lane sleeps; the clock jumps to its deadline.
    let kernel = host.parts().kernel;
    let sleep = Timer::sleep(7, first, kernel.interface());
    assert_eq!(sleep.poll(kernel.interface()), Progress::Pending);
    assert!(host.settle());
    assert_eq!(now(host.kernel().scheduler()).nanos, 7);
    assert_eq!(host.parts().kernel.next_batch(), vec![first]);
    let kernel = host.parts().kernel;
    assert_eq!(sleep.poll(kernel.interface()), Progress::Ready(()));
    kernel.lane_polled(first, LanePoll::Completed);
    host.system().task_polled(true, true);
    assert!(!host.settle());
    assert_eq!(host.system().active_lanes(), 0);
    host.advance(3);
    assert_eq!(now(host.kernel().scheduler()).nanos, 10);
}

#[test]
fn lane_limit_of_a_container() {
    let limits = ResourceLimits { max_lanes: 1, ..ResourceLimits::default_application() };
    let mut system = System::new(limits, BoundaryId::new(1));
    let mut ids = IdSource::new();
    let lane = Lane::create(&mut system, &mut ids).ok().expect("first lane");
    assert_eq!(
        Lane::create(&mut system, &mut ids).err(),
        Some(LaneError::ContainerAtCapacity)
    );
    assert_eq!(lane.destroy(&mut system), Ok(()));
    let mut lane = Lane::create(&mut system, &mut ids).ok().expect("slot freed");
    lane.submit(&mut system).unwrap();
    // Destroying an occupied lane is an error, but its slot is released.
    assert_eq!(lane.destroy(&mut system), Err(LaneError::LaneRunning));
    assert_eq!(system.active_lanes(), 0);
}

#[test]
fn allocations_are_checked_against_the_limit() {
    let system = System::new(ResourceLimits::default_application(), BoundaryId::new(1));
    let limit = system.resource_limits().memory_bytes;
    assert_eq!(system.check_allocation(0, limit), Ok(()));
    let refused = Err(SdkError::Shared(SharedError::MemoryLimit));
    assert_eq!(system.check_allocation(1, limit), refused);
    assert_eq!(system.check_allocation(u64::MAX, u64::MAX), refused);
    assert_eq!(SdkError::from(SharedError::MemoryLimit), refused.unwrap_err());
    assert_eq!(
        SdkError::from(KernelError::UnknownChannel),
        SdkError::Kernel(KernelError::UnknownChannel)
    );
}

#[test]
fn try_operations_report_full_empty_closed() {
    let mut m = single(1, CibosProfile::Balanced, ResourceLimits::default_application());
    let parts = m.host.parts(0);
    let lane = LaneId::new(1);
    let (mut ch, mut side) =
        Channel::<String>::new_local(1, parts.system, parts.ids).ok().expect("channel");
    assert_eq!(ch.capacity(), 1);
    let kernel = parts.kernel.interface();
    assert_eq!(ch.try_receive(lane, kernel), Err(TryReceiveError::Empty));
    assert!(ch.try_send("one".to_string(), lane, kernel).is_ok());
    match ch.try_send("two".to_string(), lane, kernel) {
        Err(TrySendError::Full(m)) => assert_eq!(m, "two"),
        other => panic!("expected a full buffer, got {other:?}"),
    }
    ch.close(&mut side, parts.system, kernel);
    match ch.try_send("three".to_string(), lane, kernel) {
        Err(TrySendError::Closed(m)) => assert_eq!(m, "three"),
        other => panic!("expected a closed channel, got {other:?}"),
    }
    assert_eq!(ch.try_receive(lane, kernel), Ok("one".to_string()));
    assert_eq!(ch.try_receive(lane, kernel), Err(TryReceiveError::Closed));
}

#[test]
fn buffer_capacities_are_checked() {
    let mut m = single(1, CibosProfile::Balanced, ResourceLimits::default_application());
    let parts = m.host.parts(0);
    for capacity in [0usize, 65537] {
        assert_eq!(
            Channel::<u8>::new_local(capacity, parts.system, parts.ids).err(),
            Some(ChannelError::BufferCapacityInvalid)
        );
    }
    assert!(Channel::<u8>::new_local(65536, parts.system, parts.ids).is_ok());
    let request =
        ChannelRequest { target: BoundaryId::new(9), purpose: "", buffer_capacity: 1 };
    let r = Channel::<u8>::request(
        &request,
        TEXT_MESSAGES,
        LaneId::new(1),
        parts.system,
        parts.ids,
        parts.broker,
        parts.kernel.interface(),
    );
    assert_eq!(r.err(), Some(ChannelError::TermsViolation));
    assert_eq!(parts.system.outbound_channel_count(), 0);
}

#[test]
fn rejected_request_releases_the_requester() {
    let mut m = Machine::new(1, CibosProfile::Balanced, 8);
    let a = m.host.add_container(ResourceLimits::default_application());
    let b = m.host.add_container(ResourceLimits::default_application());
    let target = m.host.parts(b).system.boundary();
    let (requester, accepter) = (LaneId::new(1), LaneId::new(2));

    // The target listens first, and parks on its doorbell.
    let mut waiting = await_channel_request();
    let parts = m.host.parts(b);
    let p = waiting.poll(
        TEXT_MESSAGES,
        accepter,
        parts.system,
        parts.ids,
        parts.broker,
        parts.kernel.interface(),
    );
    assert!(matches!(p, Progress::Pending));

    let parts = m.host.parts(a);
    let request = ChannelRequest { target, purpose: "p", buffer_capacity: 1 };
    let (_ch, mut side, answer) = Channel::<u8>::request(
        &request,
        TEXT_MESSAGES,
        requester,
        parts.system,
        parts.ids,
        parts.broker,
        parts.kernel.interface(),
    )
    .ok()
    .expect("sent");
    assert_eq!(parts.system.outbound_channel_count(), 1);
    let p = answer.poll(
        requester,
        &mut side,
        parts.system,
        parts.broker,
        parts.kernel.interface(),
    );
    assert_eq!(p, Progress::Pending);
    // The ring released the listener.
    assert_eq!(parts.kernel.next_batch(), vec![accepter]);

    let parts = m.host.parts(b);
    match waiting.poll(
        TEXT_MESSAGES,
        accepter,
        parts.system,
        parts.ids,
        parts.broker,
        parts.kernel.interface(),
    ) {
        Progress::Ready(Ok(incoming)) => {
            assert_eq!(incoming.source(), BoundaryId::new(1));
            incoming.reject(accepter, parts.broker, parts.kernel.interface());
        }
        other => panic!("expected a request, got {other:?}"),
    }
    let parts = m.host.parts(a);
    let p = answer.poll(
        requester,
        &mut side,
        parts.system,
        parts.broker,
        parts.kernel.interface(),
    );
    assert_eq!(p, Progress::Ready(Err(ChannelError::TargetRejected)));
    assert_eq!(parts.system.outbound_channel_count(), 0);
    // The rendezvous is gone.
    let p = answer.poll(
        requester,
        &mut side,
        parts.system,
        parts.broker,
        parts.kernel.interface(),
    );
    assert_eq!(p, Progress::Ready(Err(ChannelError::TargetNotFound)));
}

#[test]
fn request_of_another_type_is_refused() {
    let mut m = Machine::new(1, CibosProfile::Balanced, 8);
    let a = m.host.add_container(ResourceLimits::default_application());
    let b = m.host.add_container(ResourceLimits::default_application());
    let target = m.host.parts(b).system.boundary();
    let parts = m.host.parts(a);
    let request = ChannelRequest { target, purpose: "p", buffer_capacity: 1 };
    let sent = Channel::<u64>::request(
        &request,
        U64_MESSAGES,
        LaneId::new(1),
        parts.system,
        parts.ids,
        parts.broker,
        parts.kernel.interface(),
    );
    assert!(sent.is_ok());
    let parts = m.host.parts(b);
    let mut waiting = await_channel_request();
    let p = waiting.poll(
        TEXT_MESSAGES,
        LaneId::new(2),
        parts.system,
        parts.ids,
        parts.broker,
        parts.kernel.interface(),
    );
    assert!(matches!(p, Progress::Ready(Err(ChannelError::ChannelClosed))));
}

#[test]
fn timeouts_prefer_the_value() {
    let mut m = single(1, CibosProfile::Balanced, ResourceLimits::default_application());
    let lane = LaneId::new(1);
    let kernel = m.host.parts(0).kernel;
    let mut w = with_timeout(10, lane);
    assert_eq!(w.poll(Progress::<u8>::Pending, kernel.interface()), Progress::Pending);
    kernel.advance_clock(10);
    // Both are ready on the same poll.
    assert_eq!(w.poll(Progress::Ready(5u8), kernel.interface()), Progress::Ready(Ok(5)));
    assert_eq!(
        w.poll(Progress::<u8>::Pending, kernel.interface()),
        Progress::Ready(Err(TimeoutError))
    );
}

#[test]
fn sleeping_until_a_past_instant_is_over() {
    let mut m = single(1, CibosProfile::Balanced, ResourceLimits::default_application());
    let lane = LaneId::new(1);
    let kernel = m.host.parts(0).kernel;
    let start = now(kernel.scheduler());
    kernel.advance_clock(5);
    assert_eq!(Timer::at(start, lane, kernel.interface()).poll(kernel.interface()), Progress::Ready(()));
    let zero = Timer::sleep(0, lane, kernel.interface());
    assert_eq!(zero.poll(kernel.interface()), Progress::Ready(()));
    let later = Timer::at(start.saturating_add(9), lane, kernel.interface());
    assert_eq!(later.deadline.nanos, 9);
    assert_eq!(later.poll(kernel.interface()), Progress::Pending);
    kernel.advance_clock(4);
    assert_eq!(later.poll(kernel.interface()), Progress::Ready(()));
}

#[test]
fn ids_are_not_handed_out_twice() {
    let mut ids = IdSource::new();
    assert!(ids.has_lane_id() && ids.has_channel_ids(2));
    assert_eq!((ids.mint_lane(), ids.mint_lane()), (1, 2));
    assert_eq!((ids.mint_channel(), ids.mint_channel()), (1, 2));
    assert!(!ids.has_channel_ids(u64::MAX));
}

#[test]
fn requests_wait_in_order() {
    let mut m = Machine::new(1, CibosProfile::Balanced, 8);
    let a = m.host.add_container(ResourceLimits::default_application());
    let b = m.host.add_container(ResourceLimits::default_application());
    let c = m.host.add_container(ResourceLimits::default_application());
    assert_eq!(m.host.container_count(), 3);
    let target = m.host.parts(c).system.boundary();
    for (from, capacity) in [(a, 1usize), (b, 2)] {
        let parts = m.host.parts(from);
        let request = ChannelRequest { target, purpose: "p", buffer_capacity: capacity };
        let sent = Channel::<u64>::request(
            &request,
            U64_MESSAGES,
            LaneId::new(1),
            parts.system,
            parts.ids,
            parts.broker,
            parts.kernel.interface(),
        );
        assert!(sent.is_ok());
    }
    for (source, capacity) in [(1u64, 1usize), (2, 2)] {
        let parts = m.host.parts(c);
        let mut waiting = await_channel_request();
        let p = waiting.poll(
            U64_MESSAGES,
            LaneId::new(3),
            parts.system,
            parts.ids,
            parts.broker,
            parts.kernel.interface(),
        );
        match p {
            Progress::Ready(Ok(incoming)) => {
                assert_eq!(incoming.source(), BoundaryId::new(source));
                assert_eq!(incoming.capacity(), capacity);
            }
            other => panic!("expected a request, got {other:?}"),
        }
    }
}

#[test]
fn channels_of_one_container_are_its_own() {
    let limits = ResourceLimits { max_channels: 1, ..ResourceLimits::default_application() };
    let mut m = Machine::new(1, CibosProfile::Balanced, 8);
    let a = m.host.add_container(limits);
    let b = m.host.add_container(limits);
    let target = m.host.parts(b).system.boundary();
    let request = ChannelRequest { target, purpose: "p", buffer_capacity: 1 };
    for (nth, expected) in [(0, true), (1, false)] {
        let parts = m.host.parts(a);
        let sent = Channel::<u64>::request(
            &request,
            U64_MESSAGES,
            LaneId::new(1),
            parts.system,
            parts.ids,
            parts.broker,
            parts.kernel.interface(),
        );
        assert_eq!(sent.is_ok(), expected, "request {nth}");
    }
    // Outbound channels do not count as local ones.
    let parts = m.host.parts(a);
    assert!(Channel::<u8>::new_local(1, parts.system, parts.ids).is_ok());
    assert_eq!(container::channel_count(m.host.parts(b).system).inbound, 0);
}
