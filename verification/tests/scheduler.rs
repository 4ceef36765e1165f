use cibos::abi::ids::LaneId;
use cibos::abi::sched::{CibosProfile, KernelInterface, Monotonic, WaitResource, WeightClass};
use cibos::kernel::scheduler::Scheduler;

const MILLI: u64 = 1_000_000;

#[test]
fn register_and_signal_move_between_lists() {
    let mut sched = Scheduler::new(2, [0u8; 32], CibosProfile::Balanced);
    let lane = LaneId::new(1);
    sched.signal_ready(lane);
    assert_eq!(sched.ready_count(), 1);
    assert_eq!(sched.stalled_count(), 0);

    sched.register_wait(lane, WaitResource::Memory(1024));
    assert_eq!(sched.ready_count(), 0);
    assert_eq!(sched.stalled_count(), 1);

    sched.signal_ready(lane);
    assert_eq!(sched.ready_count(), 1);
    assert_eq!(sched.stalled_count(), 0);
}

#[test]
fn signal_ready_is_idempotent() {
    let mut sched = Scheduler::new(2, [0u8; 32], CibosProfile::Balanced);
    let lane = LaneId::new(1);
    sched.signal_ready(lane);
    sched.signal_ready(lane);
    assert_eq!(sched.ready_count(), 1, "a lane appears in ready at most once");
}

#[test]
fn dispatch_batch_respects_contexts() {
    let mut sched = Scheduler::new(2, [3u8; 32], CibosProfile::Balanced);
    for id in 1..=5 {
        sched.signal_ready(LaneId::new(id));
    }
    let batch = sched.take_dispatch_batch();
    assert_eq!(batch.len(), 2, "only as many as execution contexts");
    // Dispatched lanes were removed from ready.
    assert_eq!(sched.ready_count(), 3);
}

#[test]
fn timer_matures_on_clock_advance() {
    let mut sched = Scheduler::new(1, [0u8; 32], CibosProfile::Balanced);
    let lane = LaneId::new(1);
    sched.register_wait(lane, WaitResource::Timer(Monotonic::from_millis(10)));
    assert_eq!(sched.stalled_count(), 1);

    // Not yet due.
    sched.advance_clock(5 * MILLI);
    assert_eq!(sched.ready_count(), 0);
    assert_eq!(sched.stalled_count(), 1);

    // Now due: released to ready.
    sched.advance_clock(6 * MILLI);
    assert_eq!(sched.ready_count(), 1);
    assert_eq!(sched.stalled_count(), 0);
}

#[test]
fn weight_override_only_under_compute() {
    let mut balanced = Scheduler::new(1, [0u8; 32], CibosProfile::Balanced);
    assert!(!balanced.set_lane_weight(LaneId::new(1), 9));

    let mut compute = Scheduler::new(1, [0u8; 32], CibosProfile::Compute);
    assert!(compute.set_lane_weight(LaneId::new(1), 9));
}

#[test]
fn maximum_isolation_forces_equal_weights() {
    // Under Maximum Isolation the config weights are all 1, so a System lane
    // and a Background lane resolve to the same selection weight.
    let mut sched = Scheduler::new(1, [0u8; 32], CibosProfile::MaximumIsolation);
    sched.register_lane(LaneId::new(1), WeightClass::System);
    sched.register_lane(LaneId::new(2), WeightClass::Background);
    assert_eq!(sched.weight_for(LaneId::new(1)), 1);
    assert_eq!(sched.weight_for(LaneId::new(2)), 1);
}

#[test]
fn overridden_weight_counts_under_compute() {
    let mut sched = Scheduler::new(1, [0u8; 32], CibosProfile::Compute);
    let lane = LaneId::new(1);
    sched.register_lane(lane, WeightClass::Background);
    assert_eq!(sched.weight_for(lane), 1);
    assert!(sched.update_lane_weight(lane, 77));
    assert_eq!(sched.weight_for(lane), 77);
    sched.notify_complete(lane);
    assert_ne!(sched.weight_for(lane), 77);
}

#[test]
fn clock_jumps_to_the_next_timer() {
    let mut sched = Scheduler::new(1, [0u8; 32], CibosProfile::Balanced);
    assert!(!sched.advance_to_next_timer());
    sched.register_wait(LaneId::new(1), WaitResource::Timer(Monotonic::from_millis(30)));
    sched.register_wait(LaneId::new(2), WaitResource::Timer(Monotonic::from_millis(10)));
    sched.register_wait(LaneId::new(3), WaitResource::Memory(1));
    assert!(sched.advance_to_next_timer());
    assert_eq!(sched.now(), Monotonic::from_millis(10));
    assert_eq!(sched.take_dispatch_batch(), vec![LaneId::new(2)]);
    assert_eq!(sched.stalled_count(), 2);
    assert!(sched.advance_to_next_timer());
    assert_eq!(sched.now(), Monotonic::from_millis(30));
    assert!(!sched.advance_to_next_timer());
}

#[test]
fn dispatched_lanes_were_ready() {
    let mut sched = Scheduler::new(3, [8u8; 32], CibosProfile::Performance);
    for id in 1..=7 {
        sched.register_lane(LaneId::new(id), WeightClass::User);
        sched.signal_ready(LaneId::new(id));
    }
    let mut seen: Vec<u64> = Vec::new();
    while sched.has_ready() {
        for lane in sched.take_dispatch_batch() {
            assert!(!seen.contains(&lane.0));
            seen.push(lane.0);
        }
    }
    seen.sort();
    assert_eq!(seen, vec![1, 2, 3, 4, 5, 6, 7]);
    assert!(sched.is_idle());
}
