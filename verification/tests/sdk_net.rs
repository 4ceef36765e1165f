use cibos::abi::ids::{ChannelId, LaneId};
use cibos::abi::sched::{CibosProfile, KernelInterface};
use cibos::abi::terms::{ChannelDirection, ChannelTerms};
use cibos::kernel::channel::{Channel, RecvStep};
use cibos::kernel::scheduler::Scheduler;
use cibos::sdk::net::{Gate, Lattice, NetError};

#[test]
fn connect_to_unbound_gate_is_refused() {
    let mut net = Lattice::new();
    assert_eq!(net.connect(80).err(), Some(NetError::Refused));
}

#[test]
fn bind_connect_exchange() {
    let mut net = Lattice::new();
    let listener = net.bind(80).unwrap();

    // Client connects and sends a request.
    let client = net.connect(80).unwrap();
    client.send(b"GET /", &mut net).unwrap();

    // Server accepts and reads it, then replies.
    let server = listener.accept(&mut net).expect("a pending connection");
    assert_eq!(server.try_recv(&mut net).unwrap().as_deref(), Some(&b"GET /"[..]));
    server.send(b"200 OK", &mut net).unwrap();

    // Client reads the reply.
    assert_eq!(client.try_recv(&mut net).unwrap().as_deref(), Some(&b"200 OK"[..]));
    // Nothing more pending.
    assert_eq!(client.try_recv(&mut net).unwrap(), None);
}

#[test]
fn double_bind_is_rejected() {
    let mut net = Lattice::new();
    let _l = net.bind(80).unwrap();
    assert_eq!(net.bind(80).err(), Some(NetError::AlreadyBound));
}

#[test]
fn warden_blocks_bind_and_connect() {
    let mut net = Lattice::new();
    net.warden_deny(23); // telnet-style gate, denied
    assert_eq!(net.bind(23).err(), Some(NetError::Blocked));
    assert_eq!(net.connect(23).err(), Some(NetError::Blocked));
    // Allowing it again lets a bind through.
    net.warden_allow(23);
    assert!(net.bind(23).is_ok());
}

#[test]
fn close_propagates_to_peer() {
    let mut net = Lattice::new();
    let listener = net.bind(9).unwrap();
    let client = net.connect(9).unwrap();
    let server = listener.accept(&mut net).unwrap();
    client.close(&mut net);
    // Server sees the closed link once drained.
    assert_eq!(server.try_recv(&mut net), Err(NetError::LinkClosed));
}

#[test]
fn scan_reports_open_closed_blocked() {
    let mut net = Lattice::new();
    let _a = net.bind(80).unwrap();
    let _b = net.bind(443).unwrap();
    net.warden_deny(23);

    let report = net.scan(&[22u16, 23, 80, 443]);
    let by_gate = |g: Gate| report.iter().find(|s| s.gate == g).copied().unwrap();
    assert!(!by_gate(22).open && !by_gate(22).blocked); // closed
    assert!(by_gate(23).blocked); // firewalled
    assert!(by_gate(80).open);
    assert!(by_gate(443).open);

    assert_eq!(net.open_gates(), vec![80, 443]);
}

#[test]
fn sent_messages_survive_a_close() {
    let mut net = Lattice::new();
    let listener = net.bind(9).unwrap();
    assert_eq!(listener.gate(), 9);
    let client = net.connect(9).unwrap();
    let server = listener.accept(&mut net).unwrap();
    client.send(b"last", &mut net).unwrap();
    client.close(&mut net);
    assert_eq!(server.send(b"x", &mut net), Err(NetError::LinkClosed));
    assert_eq!(server.try_recv(&mut net).unwrap().as_deref(), Some(&b"last"[..]));
    assert_eq!(server.try_recv(&mut net), Err(NetError::LinkClosed));
}

#[test]
fn closed_listener_refuses() {
    let mut net = Lattice::new();
    let listener = net.bind(9).unwrap();
    assert_eq!(listener.accept(&mut net), None);
    listener.close(&mut net);
    assert_eq!(net.connect(9).err(), Some(NetError::Refused));
    assert!(net.open_gates().is_empty());
    assert!(net.is_allowed(9));
}

#[test]
fn doorbell_wakes_a_parked_server() {
    let mut net = Lattice::new();
    let mut sched = Scheduler::new(1, [0u8; 32], CibosProfile::Balanced);
    let listener = net.bind(7).unwrap();
    let terms = ChannelTerms::new("bell", ChannelDirection::Bidirectional, 1, 1).unwrap();
    net.install_doorbell(7, Channel::new(ChannelId::new(1), &terms));
    let (server, client) = (LaneId::new(1), LaneId::new(2));
    sched.signal_ready(server);
    // The server parks on its doorbell.
    let step = net.doorbell(7).unwrap().try_recv(server, &mut sched);
    assert_eq!(step, RecvStep::Empty);
    assert!(!sched.has_ready());
    // A connection wakes it.
    assert!(net.connect_signaling(client, 7, &mut sched).is_ok());
    assert_eq!(sched.take_dispatch_batch(), vec![server]);
    assert!(listener.accept(&mut net).is_some());
    // A full doorbell does not lose the connection.
    assert!(net.connect_signaling(client, 7, &mut sched).is_ok());
    assert!(listener.accept(&mut net).is_some());
    // Without a doorbell nothing is rung.
    let _other = net.bind(8).unwrap();
    assert!(net.doorbell(8).is_none());
    assert!(net.connect_signaling(client, 8, &mut sched).is_ok());
    assert_eq!(net.connect_signaling(client, 99, &mut sched).err(), Some(NetError::Refused));
}

#[test]
fn new_links_leave_others_alone() {
    let mut net = Lattice::new();
    let listener = net.bind(9).unwrap();
    let first = net.connect(9).unwrap();
    first.send(b"one", &mut net).unwrap();
    let second = net.connect(9).unwrap();
    second.send(b"two", &mut net).unwrap();
    // Links are accepted in the order in which they came.
    let a = listener.accept(&mut net).unwrap();
    let b = listener.accept(&mut net).unwrap();
    assert_eq!(a.try_recv(&mut net).unwrap().as_deref(), Some(&b"one"[..]));
    assert_eq!(b.try_recv(&mut net).unwrap().as_deref(), Some(&b"two"[..]));
}
