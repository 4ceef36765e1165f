use cibos::abi::ids::{BoundaryId, ChannelId, LaneId};
use cibos::abi::sched::{KernelInterface, Monotonic, WaitResource};
use cibos::kernel::channel::{RecvStep, SendStep};
use cibos::kernel::gate::{GateError, GateRegistry, GateState, LINK_CAPACITY, LINK_MAX_MESSAGE};

/// A kernel that does nothing (links never park in these tests).
struct StubKernel;

impl KernelInterface for StubKernel {
    fn sound(&self) -> bool {
        true
    }
    fn parked(self, _lane: LaneId, _resource: WaitResource, _after: Self) -> bool {
        true
    }
    fn released(self, _lane: LaneId, _after: Self) -> bool {
        true
    }
    fn time(&self) -> Monotonic {
        Monotonic::zero()
    }
    fn weighted(self, _lane: LaneId, _weight: u32, _after: Self, _accepted: bool) -> bool {
        true
    }
    fn register_wait(&mut self, _lane: LaneId, _resource: WaitResource) {}
    fn signal_ready(&mut self, _lane: LaneId) {}
    fn now(&self) -> Monotonic {
        Monotonic::zero()
    }
    fn set_lane_weight(&mut self, _lane: LaneId, _weight: u32) -> bool {
        false
    }
}

#[test]
fn bind_then_probe_open() {
    let mut reg = GateRegistry::new();
    assert_eq!(reg.probe(80), GateState::Closed);
    reg.bind(BoundaryId(0x100), 80).unwrap();
    assert_eq!(reg.probe(80), GateState::Open);
}

#[test]
fn double_bind_is_already_bound() {
    let mut reg = GateRegistry::new();
    reg.bind(BoundaryId(0x100), 80).unwrap();
    assert_eq!(reg.bind(BoundaryId(0x200), 80), Err(GateError::AlreadyBound));
}

#[test]
fn warden_denial_is_total() {
    let mut reg = GateRegistry::new();
    reg.warden_deny(80);
    assert_eq!(reg.probe(80), GateState::Blocked);
    // Bind refused.
    assert_eq!(reg.bind(BoundaryId(0x100), 80), Err(GateError::Blocked));
    // Connect refused (even though nothing is bound, the Warden check is first).
    assert_eq!(
        reg.connect(BoundaryId(0x200), 80, ChannelId::new(1)).err(),
        Some(GateError::Blocked)
    );
    // Re-allow and it binds.
    reg.warden_allow(80);
    assert!(reg.bind(BoundaryId(0x100), 80).is_ok());
}

#[test]
fn connect_to_unbound_is_refused() {
    let mut reg = GateRegistry::new();
    assert_eq!(
        reg.connect(BoundaryId(0x200), 80, ChannelId::new(1)).err(),
        Some(GateError::Refused)
    );
}

#[test]
fn connect_then_accept_links_both_ends_to_one_channel() {
    let mut reg = GateRegistry::new();
    let mut kernel = StubKernel;
    let owner = BoundaryId(0x100);
    let client = BoundaryId(0x200);
    reg.bind(owner, 80).unwrap();

    // Client connects -> gets its half.
    let client_link = reg.connect(client, 80, ChannelId::new(1)).unwrap();

    // Owner accepts -> gets the listener half + the client's boundary.
    let (listener_link, from) = reg.accept(owner, 80).unwrap();
    assert_eq!(from, client);
    let listener_id = reg.link(listener_link).unwrap().id();
    assert_eq!(listener_id, reg.link(client_link).unwrap().id(), "same Link channel");

    // Bytes flow client -> owner through the SAME channel.
    assert_eq!(
        reg.link(client_link).unwrap().try_send(LaneId::new(1), b"ping", &mut kernel),
        SendStep::Sent
    );
    match reg.link(listener_link).unwrap().try_recv(LaneId::new(2), &mut kernel) {
        RecvStep::Message(m) => assert_eq!(m.as_slice(), b"ping"),
        other => panic!("expected ping, got {other:?}"),
    }
}

#[test]
fn accept_requires_ownership_and_pending() {
    let mut reg = GateRegistry::new();
    let owner = BoundaryId(0x100);
    reg.bind(owner, 80).unwrap();
    // No pending connect yet.
    assert_eq!(reg.accept(owner, 80).err(), Some(GateError::WouldBlock));
    // A non-owner cannot accept.
    reg.connect(BoundaryId(0x200), 80, ChannelId::new(1)).unwrap();
    assert_eq!(reg.accept(BoundaryId(0x999), 80).err(), Some(GateError::NotOwner));
    // The owner can.
    assert!(reg.accept(owner, 80).is_ok());
}

#[test]
fn unbind_needs_the_owner() {
    let mut reg = GateRegistry::new();
    assert_eq!(reg.unbind(BoundaryId(1), 5), Err(GateError::Refused));
    reg.bind(BoundaryId(1), 5).unwrap();
    assert_eq!(reg.unbind(BoundaryId(2), 5), Err(GateError::NotOwner));
    assert_eq!(reg.unbind(BoundaryId(1), 5), Ok(()));
    assert_eq!(reg.probe(5), GateState::Closed);
    assert_eq!(reg.accept(BoundaryId(1), 5).err(), Some(GateError::Refused));
}

#[test]
fn links_are_bounded() {
    let mut reg = GateRegistry::new();
    let mut kernel = StubKernel;
    reg.bind(BoundaryId(1), 5).unwrap();
    let link = reg.connect(BoundaryId(2), 5, ChannelId::new(1)).unwrap();
    let channel = reg.link(link).unwrap();
    let big = vec![0u8; LINK_MAX_MESSAGE as usize + 1];
    assert_eq!(channel.try_send(LaneId::new(1), &big, &mut kernel), SendStep::TooLarge);
    for _ in 0..LINK_CAPACITY {
        assert_eq!(channel.try_send(LaneId::new(1), b"x", &mut kernel), SendStep::Sent);
    }
    assert_eq!(channel.try_send(LaneId::new(1), b"x", &mut kernel), SendStep::Full);
}
