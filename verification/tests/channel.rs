use cibos::abi::ids::{BoundaryId, ChannelId, LaneId};
use cibos::abi::sched::{KernelInterface, Monotonic, WaitResource};
use cibos::abi::terms::{ChannelDirection, ChannelTerms, ProtocolError};
use cibos::kernel::channel::{
    Channel, ChannelRegistry, ChannelRequest, Progress, RecvStep, SendStep,
};

// A tiny kernel stub recording signals, for testing channel mechanics in isolation
// from the scheduler.
struct StubKernel {
    signals: Vec<LaneId>,
    waits: Vec<(LaneId, WaitResource)>,
}

impl StubKernel {
    fn new() -> Self {
        StubKernel {
            signals: Vec::new(),
            waits: Vec::new(),
        }
    }
}

impl KernelInterface for StubKernel {
    fn sound(&self) -> bool {
        true
    }
    fn parked(self, _lane: LaneId, _resource: WaitResource, _after: Self) -> bool {
        true
    }
    fn released(self, _lane: LaneId, _after: Self) -> bool {
        true
    }
    fn time(&self) -> Monotonic {
        Monotonic::zero()
    }
    fn weighted(self, _lane: LaneId, _weight: u32, _after: Self, _accepted: bool) -> bool {
        true
    }
    fn register_wait(&mut self, lane: LaneId, resource: WaitResource) {
        self.waits.push((lane, resource));
    }
    fn signal_ready(&mut self, lane: LaneId) {
        self.signals.push(lane);
    }
    fn now(&self) -> Monotonic {
        Monotonic::zero()
    }
    fn set_lane_weight(&mut self, _lane: LaneId, _weight: u32) -> bool {
        false
    }
}

fn terms(cap: u32, max_msg: u32) -> ChannelTerms {
    ChannelTerms::new("test", ChannelDirection::Bidirectional, max_msg, cap).unwrap()
}

#[test]
fn send_then_receive() {
    let mut k = StubKernel::new();
    let mut ch = Channel::new(ChannelId::new(1), &terms(4, 64));
    assert_eq!(ch.try_send(LaneId::new(1), b"hello", &mut k), SendStep::Sent);
    assert_eq!(ch.pending(), 1);
    assert_eq!(
        ch.try_recv(LaneId::new(2), &mut k),
        RecvStep::Message(b"hello".to_vec())
    );
    assert_eq!(ch.pending(), 0);
}

#[test]
fn receive_empty_registers_wait() {
    let mut k = StubKernel::new();
    let mut ch = Channel::new(ChannelId::new(7), &terms(4, 64));
    assert_eq!(ch.try_recv(LaneId::new(2), &mut k), RecvStep::Empty);
    assert_eq!(k.waits.len(), 1);
    assert_eq!(k.waits[0], (LaneId::new(2), WaitResource::ChannelData(ChannelId::new(7))));
}

#[test]
fn send_wakes_waiting_receiver() {
    let mut k = StubKernel::new();
    let mut ch = Channel::new(ChannelId::new(1), &terms(4, 64));
    // Receiver parks.
    assert_eq!(ch.try_recv(LaneId::new(20), &mut k), RecvStep::Empty);
    // Sender sends; the parked receiver is signalled.
    assert_eq!(ch.try_send(LaneId::new(10), b"data", &mut k), SendStep::Sent);
    assert_eq!(k.signals, vec![LaneId::new(20)]);
}

#[test]
fn full_buffer_applies_back_pressure() {
    let mut k = StubKernel::new();
    let mut ch = Channel::new(ChannelId::new(1), &terms(2, 64));
    assert_eq!(ch.try_send(LaneId::new(1), b"a", &mut k), SendStep::Sent);
    assert_eq!(ch.try_send(LaneId::new(1), b"b", &mut k), SendStep::Sent);
    // Third send hits the capacity ceiling and registers a buffer wait.
    assert_eq!(ch.try_send(LaneId::new(1), b"c", &mut k), SendStep::Full);
    assert_eq!(
        k.waits[0],
        (LaneId::new(1), WaitResource::ChannelBuffer(ChannelId::new(1)))
    );
}

#[test]
fn receive_wakes_waiting_sender() {
    let mut k = StubKernel::new();
    let mut ch = Channel::new(ChannelId::new(1), &terms(1, 64));
    assert_eq!(ch.try_send(LaneId::new(1), b"a", &mut k), SendStep::Sent);
    assert_eq!(ch.try_send(LaneId::new(1), b"b", &mut k), SendStep::Full); // parks sender
    // A receive frees a slot and wakes the parked sender.
    assert_eq!(ch.try_recv(LaneId::new(2), &mut k), RecvStep::Message(b"a".to_vec()));
    assert_eq!(k.signals, vec![LaneId::new(1)]);
}

#[test]
fn oversized_message_rejected() {
    let mut k = StubKernel::new();
    let mut ch = Channel::new(ChannelId::new(1), &terms(4, 4));
    assert_eq!(ch.try_send(LaneId::new(1), b"toolong", &mut k), SendStep::TooLarge);
}

#[test]
fn closed_channel_reports_closed() {
    let mut k = StubKernel::new();
    let mut ch = Channel::new(ChannelId::new(1), &terms(4, 64));
    ch.close(&mut k);
    assert_eq!(ch.try_send(LaneId::new(1), b"x", &mut k), SendStep::Closed);
    assert_eq!(ch.try_recv(LaneId::new(2), &mut k), RecvStep::Closed);
}

// ---- Cross-boundary handshake (request / poll / accept / reject) ----------

fn channel_request(target: u64, cap: u32, max_msg: u32) -> ChannelRequest {
    ChannelRequest {
        target: BoundaryId(target),
        terms: terms(cap, max_msg),
    }
}

#[test]
fn handshake_accept_creates_channel_from_proposed_terms() {
    let mut reg = ChannelRegistry::new();
    let from = BoundaryId(0x100);
    let req = channel_request(0x200, 4, 64);

    let id = reg.request(from, &req);
    assert!(reg.is_pending(id), "request should be pending until decided");

    // The target boundary (0x200) sees the pending request and its terms.
    let polled = reg.poll(BoundaryId(0x200)).expect("target should see request");
    assert_eq!(polled.0, id);
    assert_eq!(polled.1, from, "requester boundary reported to receiver");
    assert_eq!(polled.2, req.terms, "exact proposed terms reported");

    // Accept WHOLESALE -> a channel exists, same id usable by both ends, and
    // the requester's boundary is reported so both endpoints can be wired.
    let (channel, requester) = reg
        .accept(id, BoundaryId(0x200))
        .expect("accept should create the channel");
    assert!(!reg.is_pending(id), "accepted request no longer pending");
    assert_eq!(channel.id(), ChannelId::new(1));
    assert_eq!(requester, from, "requester boundary returned for endpoint wiring");
}

#[test]
fn handshake_reject_drops_request_no_channel() {
    let mut reg = ChannelRegistry::new();
    let id = reg.request(BoundaryId(0x100), &channel_request(0x200, 4, 64));

    assert!(reg.reject(id, BoundaryId(0x200)), "target may reject");
    assert!(!reg.is_pending(id), "rejected request is gone");
    // A rejected request cannot then be accepted.
    assert!(reg.accept(id, BoundaryId(0x200)).is_none());
}

#[test]
fn handshake_is_point_to_point_wrong_boundary_cannot_see_or_accept() {
    let mut reg = ChannelRegistry::new();
    let id = reg.request(BoundaryId(0x100), &channel_request(0x200, 4, 64));

    // A boundary that is NOT the target cannot observe the request...
    assert!(reg.poll(BoundaryId(0x999)).is_none(), "non-target sees nothing");
    // ...nor accept it (a requester cannot force contact into another boundary,
    // and a third boundary cannot hijack the request).
    assert!(reg.accept(id, BoundaryId(0x999)).is_none());
    assert!(!reg.reject(id, BoundaryId(0x999)));
    // The legitimate target still can.
    assert!(reg.is_pending(id));
    assert!(reg.accept(id, BoundaryId(0x200)).is_some());
}

#[test]
fn handshake_poll_only_returns_requests_for_that_target() {
    let mut reg = ChannelRegistry::new();
    let to_a = reg.request(BoundaryId(0x1), &channel_request(0xA, 4, 64));
    let _to_b = reg.request(BoundaryId(0x2), &channel_request(0xB, 8, 32));

    let pa = reg.poll(BoundaryId(0xA)).expect("A's request visible to A");
    assert_eq!(pa.0, to_a);
    // Boundary A only sees the request aimed at it, not the one aimed at B.
    assert_eq!(pa.2.buffer_capacity, 4);
}

#[test]
fn close_wakes_waiters_and_drains() {
    let mut k = StubKernel::new();
    let mut ch = Channel::new(ChannelId::new(1), &terms(1, 64));
    assert_eq!(ch.try_recv(LaneId::new(5), &mut k), RecvStep::Empty);
    ch.close(&mut k);
    assert_eq!(k.signals, vec![LaneId::new(5)]);
    assert!(ch.is_closed());

    let mut k = StubKernel::new();
    let mut ch = Channel::new(ChannelId::new(1), &terms(1, 64));
    ch.try_send(LaneId::new(1), b"kept", &mut k);
    assert_eq!(ch.try_send(LaneId::new(6), b"no", &mut k), SendStep::Full);
    ch.close(&mut k);
    assert_eq!(k.signals, vec![LaneId::new(6)]);
    assert_eq!(ch.try_recv(LaneId::new(2), &mut k), RecvStep::Message(b"kept".to_vec()));
    assert_eq!(ch.try_recv(LaneId::new(2), &mut k), RecvStep::Closed);
}

#[test]
fn polled_operations_report_their_progress() {
    let mut k = StubKernel::new();
    let mut ch = Channel::new(ChannelId::new(1), &terms(1, 4));
    let recv = ch.recv(LaneId::new(2));
    assert_eq!(recv.poll(&mut ch, &mut k), Progress::Pending);
    let send = ch.send(LaneId::new(1), vec![1, 2]);
    assert_eq!(send.poll(&mut ch, &mut k), Progress::Ready(Ok(())));
    assert_eq!(send.poll(&mut ch, &mut k), Progress::Pending);
    assert_eq!(recv.poll(&mut ch, &mut k), Progress::Ready(Ok(vec![1, 2])));
    let large = ch.send(LaneId::new(1), vec![0; 5]);
    assert_eq!(
        large.poll(&mut ch, &mut k),
        Progress::Ready(Err(ProtocolError::MessageTooLarge { size: 5, maximum: 4 }))
    );
    ch.close(&mut k);
    assert_eq!(send.poll(&mut ch, &mut k), Progress::Ready(Err(ProtocolError::ChannelClosed)));
    assert_eq!(recv.poll(&mut ch, &mut k), Progress::Ready(Err(ProtocolError::ChannelClosed)));
}

#[test]
fn messages_come_in_order() {
    let mut k = StubKernel::new();
    let mut ch = Channel::new(ChannelId::new(1), &terms(3, 4));
    for m in [b"a", b"b", b"c"] {
        ch.try_send(LaneId::new(1), m, &mut k);
    }
    for m in [b"a", b"b", b"c"] {
        assert_eq!(ch.try_recv(LaneId::new(2), &mut k), RecvStep::Message(m.to_vec()));
    }
}

#[test]
fn oldest_request_is_polled_first() {
    let mut reg = ChannelRegistry::new();
    let first = reg.request(BoundaryId(1), &channel_request(9, 4, 64));
    let second = reg.request(BoundaryId(2), &channel_request(9, 5, 64));
    assert_eq!(reg.poll(BoundaryId(9)).unwrap().0, first);
    assert!(reg.reject(first, BoundaryId(9)));
    assert_eq!(reg.poll(BoundaryId(9)).unwrap().0, second);
}

#[test]
fn request_is_accepted_once_by_its_target() {
    let mut reg = ChannelRegistry::new();
    let id = reg.request(BoundaryId(1), &channel_request(9, 4, 64));
    let made = reg.create(&terms(1, 8));
    let other = reg.request(BoundaryId(2), &channel_request(9, 5, 64));
    assert!(reg.reject(other, BoundaryId(9)));
    assert!(reg.accept(id, BoundaryId(8)).is_none());
    assert!(reg.is_pending(id));
    assert_eq!(reg.poll(BoundaryId(9)).unwrap().0, id);
    let (channel, from) = reg.accept(id, BoundaryId(9)).unwrap();
    assert!(from == BoundaryId(1));
    assert!(channel.id() != made.id());
    assert!(!reg.is_pending(id));
    assert!(reg.accept(id, BoundaryId(9)).is_none());
    assert!(reg.request(BoundaryId(1), &channel_request(9, 4, 64)) != id);
    assert!(!reg.is_pending(id));
}
