use cibos::abi::handoff::{CibiosProfile, HandoffData, RawRegion, ENTROPY_SEED_LEN};
use cibos::abi::ids::LaneId;
use cibos::abi::sched::{CibosProfile, KernelInterface, Monotonic, WaitResource, WeightClass};
use cibos::abi::terms::{ChannelDirection, ChannelTerms};
use cibos::kernel::channel::Progress;
use cibos::kernel::error::{KernelError, SharedError};
use cibos::kernel::kernel::{Kernel, LanePoll};
use std::cell::{Cell, RefCell};
use std::collections::BTreeMap;
use std::rc::Rc;

const MILLI: u64 = 1_000_000;

/// A lane's work: one call is one poll, and `true` means that it is done.
type Task = Box<dyn FnMut(&mut Kernel, LaneId) -> bool>;

struct Machine {
    kernel: Kernel,
    tasks: BTreeMap<u64, Task>,
}

impl Machine {
    fn new(kernel: Kernel) -> Machine {
        Machine { kernel, tasks: BTreeMap::new() }
    }

    fn spawn(&mut self, class: WeightClass, task: Task) -> Result<LaneId, KernelError> {
        let lane = self.kernel.spawn(class)?;
        self.tasks.insert(lane.0, task);
        Ok(lane)
    }

    fn run_until_idle(&mut self) -> usize {
        let mut polls = 0;
        loop {
            let batch = self.kernel.next_batch();
            if batch.is_empty() {
                return polls;
            }
            for lane in batch {
                let poll = match self.tasks.get_mut(&lane.0) {
                    None => LanePoll::NotFound,
                    Some(task) => {
                        polls += 1;
                        if task(&mut self.kernel, lane) {
                            self.tasks.remove(&lane.0);
                            LanePoll::Completed
                        } else {
                            LanePoll::Pending
                        }
                    }
                };
                self.kernel.lane_polled(lane, poll);
            }
        }
    }
}

#[test]
fn runs_independent_lanes_to_completion() {
    let mut m = Machine::new(Kernel::new(2, [11u8; 32], CibosProfile::Balanced, 64));
    let counter = Rc::new(Cell::new(0));
    for _ in 0..3 {
        let c = counter.clone();
        m.spawn(
            WeightClass::User,
            Box::new(move |_kernel, _lane| {
                c.set(c.get() + 1);
                true
            }),
        )
        .unwrap();
    }
    m.run_until_idle();
    assert_eq!(counter.get(), 3);
    assert!(m.kernel.is_idle());
    assert_eq!(m.kernel.lane_count(), 0);
}

#[test]
fn yielding_lane_completes() {
    let mut m = Machine::new(Kernel::new(1, [0u8; 32], CibosProfile::Performance, 16));
    let steps = Rc::new(Cell::new(0));
    let s = steps.clone();
    m.spawn(
        WeightClass::User,
        Box::new(move |kernel, lane| {
            s.set(s.get() + 1);
            if s.get() == 3 {
                return true;
            }
            kernel.interface().signal_ready(lane);
            false
        }),
    )
    .unwrap();
    assert_eq!(m.run_until_idle(), 3);
    assert_eq!(steps.get(), 3);
    assert!(m.kernel.is_idle());
}

#[test]
fn timer_stalled_lane_releases_on_clock_advance() {
    let mut m = Machine::new(Kernel::new(1, [5u8; 32], CibosProfile::Balanced, 16));
    let fired = Rc::new(Cell::new(0));
    let f = fired.clone();
    let deadline = Monotonic::from_millis(10);
    m.spawn(
        WeightClass::User,
        Box::new(move |kernel, lane| {
            if !kernel.interface().now().reached(deadline) {
                kernel.interface().register_wait(lane, WaitResource::Timer(deadline));
                return false;
            }
            f.set(f.get() + 1);
            true
        }),
    )
    .unwrap();

    // First run: the lane registers its timer wait and parks.
    m.run_until_idle();
    assert_eq!(fired.get(), 0, "timer not yet due");
    assert_eq!(m.kernel.scheduler().stalled_count(), 1);
    assert!(!m.kernel.is_idle(), "a stalled lane remains");

    // Advance past the deadline; the timer matures and the lane runs.
    m.kernel.advance_clock(15 * MILLI);
    m.run_until_idle();
    assert_eq!(fired.get(), 1);
    assert!(m.kernel.is_idle());
}

#[test]
fn many_lanes_under_competition_all_eventually_complete() {
    // 1 execution context, 20 lanes: heavy competition. Weighted-entropy
    // selection picks one at a time, but every lane must eventually run.
    let mut m = Machine::new(Kernel::new(1, [99u8; 32], CibosProfile::Balanced, 64));
    let done = Rc::new(Cell::new(0));
    for _ in 0..20 {
        let d = done.clone();
        let mut yielded = false;
        m.spawn(
            WeightClass::User,
            Box::new(move |kernel, lane| {
                if !yielded {
                    yielded = true;
                    kernel.interface().signal_ready(lane);
                    return false;
                }
                d.set(d.get() + 1);
                true
            }),
        )
        .unwrap();
    }
    m.run_until_idle();
    assert_eq!(done.get(), 20, "no lane starved");
    assert!(m.kernel.is_idle());
}

#[test]
fn lane_limit_propagates_as_kernel_error() {
    let mut m = Machine::new(Kernel::new(1, [0u8; 32], CibosProfile::Compute, 1));
    // Occupy the single slot with a lane that parks forever.
    m.spawn(
        WeightClass::User,
        Box::new(|kernel, lane| {
            kernel.interface().register_wait(lane, WaitResource::Memory(1));
            false
        }),
    )
    .unwrap();
    let second = m.spawn(WeightClass::User, Box::new(|_kernel, _lane| true));
    assert!(matches!(second, Err(KernelError::Runtime(_))));
}

fn region_map() -> Vec<RawRegion> {
    vec![
        RawRegion { base: 0, length: 0x10_0000, kind: 1 },
        RawRegion { base: 0x10_0000, length: 0x4000_0000, kind: 0 },
    ]
}

#[test]
fn boots_from_firmware_handoff_and_runs() {
    // Construct a handoff as the firmware would: standard firmware -> Balanced
    // kernel, 4 cores, 1 GiB usable.
    let handoff = HandoffData::new(
        CibiosProfile::Standard,
        CibosProfile::Balanced,
        4,
        region_map(),
        [3u8; ENTROPY_SEED_LEN],
    );
    let kernel = Kernel::from_handoff(&handoff, 64).ok().expect("kernel boots");

    // Phase-2 invariants: system boundary exists, memory accounted.
    assert!(kernel.containers().contains(kernel.system_boundary()));
    assert_eq!(kernel.memory().total_usable(), 0x4000_0000);
    assert_eq!(kernel.memory().region_count(), 1);

    // The booted kernel actually runs lanes.
    let mut m = Machine::new(kernel);
    let ran = Rc::new(Cell::new(0));
    let r = ran.clone();
    m.spawn(
        WeightClass::System,
        Box::new(move |_kernel, _lane| {
            r.set(r.get() + 1);
            true
        }),
    )
    .unwrap();
    m.run_until_idle();
    assert_eq!(ran.get(), 1);
    assert!(m.kernel.is_idle());
}

#[test]
fn rejects_handoff_with_forbidden_pairing() {
    // Standard firmware must not launch a Compute kernel; from_handoff must
    // reject this at bringup.
    let handoff = HandoffData::new(
        CibiosProfile::Standard,
        CibosProfile::Compute,
        1,
        Vec::new(),
        [0u8; ENTROPY_SEED_LEN],
    );
    assert!(Kernel::from_handoff(&handoff, 16).is_err());
}

#[test]
fn rejects_damaged_handoffs() {
    let good = || {
        HandoffData::new(
            CibiosProfile::Compute,
            CibosProfile::Compute,
            1,
            region_map(),
            [0u8; ENTROPY_SEED_LEN],
        )
    };
    assert!(Kernel::from_handoff(&good(), 16).is_ok());
    let mut h = good();
    h.magic += 1;
    assert_eq!(
        Kernel::from_handoff(&h, 16).err(),
        Some(KernelError::Shared(SharedError::BadMagic))
    );
    let mut h = good();
    h.version = 2;
    assert_eq!(
        Kernel::from_handoff(&h, 16).err(),
        Some(KernelError::Shared(SharedError::VersionMismatch))
    );
    let mut h = good();
    h.firmware = CibiosProfile::Standard;
    assert_eq!(
        Kernel::from_handoff(&h, 16).err(),
        Some(KernelError::Shared(SharedError::ForbiddenPairing))
    );
    let mut h = good();
    h.regions[1].kind = 9;
    assert_eq!(
        Kernel::from_handoff(&h, 16).err(),
        Some(KernelError::Shared(SharedError::InvalidRegion))
    );
    let mut h = good();
    h.regions[0].length = u64::MAX;
    h.regions[0].base = 1;
    assert_eq!(
        Kernel::from_handoff(&h, 16).err(),
        Some(KernelError::Shared(SharedError::InvalidRegion))
    );
}

#[test]
fn producer_consumer_over_channel_with_backpressure() {
    // One execution context and a 2-deep channel, but three messages: the
    // producer must block on back-pressure and be released by the consumer,
    // all coordinated by the real scheduler.
    let mut m = Machine::new(Kernel::new(1, [77u8; 32], CibosProfile::Balanced, 16));
    let terms = ChannelTerms::new("demo", ChannelDirection::RequesterToReceiver, 64, 2).unwrap();
    let channel = Rc::new(RefCell::new(m.kernel.create_channel(&terms)));

    // Producer lane: send 3 messages.
    let prod_ch = channel.clone();
    let mut next = 0u8;
    m.spawn(
        WeightClass::User,
        Box::new(move |kernel, lane| {
            let mut ch = prod_ch.borrow_mut();
            while next < 3 {
                let send = ch.send(lane, vec![next]);
                match send.poll(&mut ch, kernel.interface()) {
                    Progress::Pending => return false,
                    Progress::Ready(r) => r.unwrap(),
                }
                next += 1;
            }
            true
        }),
    )
    .unwrap();

    // Consumer lane: receive 3 messages into a shared sink.
    let received = Rc::new(RefCell::new(Vec::<u8>::new()));
    let sink = received.clone();
    m.spawn(
        WeightClass::User,
        Box::new(move |kernel, lane| {
            let mut ch = channel.borrow_mut();
            while sink.borrow().len() < 3 {
                let recv = ch.recv(lane);
                match recv.poll(&mut ch, kernel.interface()) {
                    Progress::Pending => return false,
                    Progress::Ready(msg) => sink.borrow_mut().push(msg.unwrap()[0]),
                }
            }
            true
        }),
    )
    .unwrap();

    m.run_until_idle();

    assert!(m.kernel.is_idle(), "both lanes finished");
    assert_eq!(&*received.borrow(), &[0u8, 1, 2], "all messages delivered in order");
}

#[test]
fn unknown_lane_is_reaped() {
    let mut kernel = Kernel::new(1, [0u8; 32], CibosProfile::Balanced, 4);
    kernel.spawn_on(LaneId::new(40), WeightClass::Background).unwrap();
    assert_eq!(kernel.lane_count(), 1);
    assert_eq!(kernel.next_batch(), vec![LaneId::new(40)]);
    kernel.lane_polled(LaneId::new(40), LanePoll::NotFound);
    assert_eq!(kernel.lane_count(), 0);
    assert!(kernel.is_idle());
}

#[test]
fn boundaries_and_memory_are_accounted_through_the_kernel() {
    let mut kernel = Kernel::new(1, [0u8; 32], CibosProfile::Balanced, 4);
    let limits = cibos::abi::limits::ResourceLimits::default_application();
    let id = kernel.containers_mut().create(limits, WeightClass::User);
    assert!(kernel.containers().contains(id));
    assert_eq!(kernel.containers().count(), 2);
    assert!(kernel.memory_mut().reserve(id, 1).is_err());
    assert_eq!(kernel.memory().available(), 0);
}
