//! The Lattice: the network fabric of one system.
//!
//! * A gate is a numbered endpoint (the "port"). A component binds a gate to offer a
//!   service and gets a [`Listener`]; another component connects to it.
//! * A link is an established bidirectional connection between two endpoints.
//! * The warden is the firewall: per-gate allow/deny rules, checked on both bind and
//!   connect. A denied gate is neither bindable nor reachable.
//!
//! This is an in-memory loopback fabric: the fabric owns the message queues, and a
//! [`Link`] names the two that it sends to and receives from.
use std::collections::VecDeque;
use vstd::prelude::*;
use vstd::slice::slice_to_vec;
use crate::abi::ids::LaneId;
use crate::abi::sched::KernelInterface;
use crate::kernel::channel::{kernel_did, Chan, Channel};
use crate::sorted_map::{ascending, SortedMap};

verus! {

/// A gate number -- the equivalent of a port.
pub type Gate = u16;

/// Networking errors.
#[derive(Debug, Clone, Copy, PartialEq, Eq, Structural)]
pub enum NetError {
    /// No listener is bound on the target gate.
    Refused,
    /// This gate is already bound by another listener.
    AlreadyBound,
    /// The warden denies this gate.
    Blocked,
    /// The link has been closed by the peer.
    LinkClosed,
}

impl NetError {
    /// What the error says.
    pub open spec fn text(self) -> Seq<char> {
        match self {
            NetError::Refused => "connection refused"@,
            NetError::AlreadyBound => "gate already bound"@,
            NetError::Blocked => "blocked by warden"@,
            NetError::LinkClosed => "link closed"@,
        }
    }

    /// What the error says.
    pub fn message(&self) -> (s: &'static str)
        ensures
            s@ == self.text(),
    {
        match self {
            NetError::Refused => "connection refused",
            NetError::AlreadyBound => "gate already bound",
            NetError::Blocked => "blocked by warden",
            NetError::LinkClosed => "link closed",
        }
    }
}

/// One direction's message queue.
struct Queue {
    messages: VecDeque<Vec<u8>>,
    closed: bool,
}

/// One direction's messages.
pub ghost struct Pipe {
    pub messages: Seq<Seq<u8>>,
    pub closed: bool,
}

impl View for Queue {
    type V = Pipe;

    closed spec fn view(&self) -> Pipe {
        Pipe {
            messages: Seq::new(self.messages@.len(), |i: int| self.messages@[i]@),
            closed: self.closed,
        }
    }
}

/// An open queue without messages.
pub open spec fn fresh_pipe() -> Pipe {
    Pipe { messages: Seq::empty(), closed: false }
}

impl Queue {
    fn new() -> (q: Queue)
        ensures
            q@ == fresh_pipe(),
    {
        let q = Queue { messages: VecDeque::new(), closed: false };
        assert(q@.messages =~= Seq::<Seq<u8>>::empty());
        q
    }
}

/// An endpoint of an established connection: the queue that it sends to and the
/// queue that it receives from. The two endpoints' queues are crossed.
#[derive(Debug, Clone, Copy, PartialEq, Eq, Structural)]
pub struct Link {
    tx: u64,
    rx: u64,
}

/// A bound gate: the links that await accept, and the channel that is rung when one
/// more does.
struct ListenerState {
    pending: VecDeque<Link>,
    doorbell: Option<Channel>,
}

/// A bound gate as a mathematical value.
pub ghost struct Listening {
    pub pending: Seq<Link>,
    pub doorbell: Option<Chan>,
}

impl View for ListenerState {
    type V = Listening;

    closed spec fn view(&self) -> Listening {
        Listening {
            pending: self.pending@,
            doorbell: match self.doorbell {
                Some(c) => Some(c@),
                None => None,
            },
        }
    }
}

/// The state of the fabric.
pub ghost struct Fabric {
    pub listeners: Map<u64, Listening>,
    pub denied: Set<u64>,
    pub queues: Map<u64, Pipe>,
    pub next_queue: u64,
}

impl Fabric {
    /// No listeners, and the warden allows all.
    pub open spec fn empty() -> Fabric {
        Fabric {
            listeners: Map::empty(),
            denied: Set::empty(),
            queues: Map::empty(),
            next_queue: 0,
        }
    }

    /// Whether the warden allows `gate`.
    pub open spec fn allows(self, gate: Gate) -> bool {
        !self.denied.contains(gate as u64)
    }

    /// Whether a listener is bound on `gate`.
    pub open spec fn is_bound(self, gate: Gate) -> bool {
        self.listeners.dom().contains(gate as u64)
    }

    /// The queue `id`. One that the fabric does not hold counts as closed and
    /// drained.
    pub open spec fn queue(self, id: u64) -> Pipe {
        if self.queues.dom().contains(id) {
            self.queues[id]
        } else {
            Pipe { messages: Seq::empty(), closed: true }
        }
    }

    /// The fabric with the queue `id` changed to `q`, if it holds one.
    pub open spec fn with_queue(self, id: u64, q: Pipe) -> Fabric {
        if self.queues.dom().contains(id) {
            Fabric { queues: self.queues.insert(id, q), ..self }
        } else {
            self
        }
    }

    /// The fabric with the queue `id` closed.
    pub open spec fn with_closed(self, id: u64) -> Fabric {
        self.with_queue(id, Pipe { closed: true, ..self.queue(id) })
    }

    /// The fabric with the listener of `gate` changed to `l`.
    pub open spec fn with_listener(self, gate: Gate, l: Listening) -> Fabric {
        Fabric { listeners: self.listeners.insert(gate as u64, l), ..self }
    }

    /// The fabric after a connect: two fresh queues, and the server's end waiting to
    /// be accepted.
    pub open spec fn connected(self, gate: Gate, server: Link) -> Fabric {
        let l = self.listeners[gate as u64];
        Fabric {
            queues: self.queues.insert(self.next_queue, fresh_pipe()).insert(
                (self.next_queue + 1) as u64,
                fresh_pipe(),
            ),
            next_queue: (self.next_queue + 2) as u64,
            ..self.with_listener(gate, Listening { pending: l.pending.push(server), ..l })
        }
    }

    /// Gates are 16-bit numbers, and every queue is older than the next.
    pub open spec fn wf(self) -> bool {
        &&& forall|k: u64| #[trigger] self.listeners.dom().contains(k) ==> k <= 0xffff
        &&& forall|k: u64| #[trigger] self.queues.dom().contains(k) ==> k < self.next_queue
    }

    /// The status of `gate`.
    pub open spec fn status(self, gate: Gate) -> GateStatus {
        GateStatus {
            gate,
            open: self.allows(gate) && self.is_bound(gate),
            blocked: !self.allows(gate),
        }
    }
}

impl Link {
    /// The queue that this endpoint sends to.
    pub closed spec fn sends_to(self) -> u64 {
        self.tx
    }

    /// The queue that this endpoint receives from.
    pub closed spec fn receives_from(self) -> u64 {
        self.rx
    }

    /// This endpoint sends to `tx` and receives from `rx`.
    pub open spec fn runs(self, tx: u64, rx: u64) -> bool {
        self.sends_to() == tx && self.receives_from() == rx
    }

    /// Send a message to the peer.
    pub fn send(&self, data: &[u8], net: &mut Lattice) -> (r: Result<(), NetError>)
        requires
            old(net).wf(),
        ensures
            final(net).wf(),
            ({
                let q = old(net)@.queue(self.sends_to());
                if q.closed {
                    r == Err::<(), NetError>(NetError::LinkClosed) && final(net)@ == old(net)@
                } else {
                    r is Ok && final(net)@ == old(net)@.with_queue(
                        self.sends_to(),
                        Pipe { messages: q.messages.push(data@), ..q },
                    )
                }
            }),
    {
        let ghost before = net.queues@;
        proof {
            net.lemma_bounds();
        }
        let sent: bool = match net.queues.get_mut(self.tx) {
            None => false,
            Some(q) => {
                if q.closed {
                    false
                } else {
                    let ghost had = q@;
                    q.messages.push_back(slice_to_vec(data));
                    assert(q@.messages =~= had.messages.push(data@));
                    true
                }
            },
        };
        proof {
            lemma_replaced_pipe(before, self.tx);
            if before.dom().contains(self.tx) && !sent {
                assert(before.insert(self.tx, before[self.tx]) =~= before);
            }
            assert(pipes(before).dom() =~= before.dom());
        }
        if sent {
            Ok(())
        } else {
            Err(NetError::LinkClosed)
        }
    }

    /// Try to receive a message: `Ok(Some(_))` if one is waiting, `Ok(None)` if none
    /// is waiting yet, `Err(LinkClosed)` if the peer closed and drained.
    pub fn try_recv(&self, net: &mut Lattice) -> (r: Result<Option<Vec<u8>>, NetError>)
        requires
            old(net).wf(),
        ensures
            final(net).wf(),
            ({
                let q = old(net)@.queue(self.receives_from());
                if q.messages.len() > 0 {
                    &&& r matches Ok(Some(m)) && m@ == q.messages[0]
                    &&& final(net)@ == old(net)@.with_queue(
                        self.receives_from(),
                        Pipe { messages: q.messages.drop_first(), ..q },
                    )
                } else {
                    &&& final(net)@ == old(net)@
                    &&& r == if q.closed {
                        Err::<Option<Vec<u8>>, NetError>(NetError::LinkClosed)
                    } else {
                        Ok(None)
                    }
                }
            }),
    {
        let ghost before = net.queues@;
        proof {
            net.lemma_bounds();
            lemma_replaced_pipe(before, self.rx);
            assert(pipes(before).dom() =~= before.dom());
            if before.dom().contains(self.rx) {
                assert(before.insert(self.rx, before[self.rx]) =~= before);
                assert(pipes(before).insert(self.rx, before[self.rx]@) =~= pipes(before));
            }
        }
        match net.queues.get_mut(self.rx) {
            None => Err(NetError::LinkClosed),
            Some(q) => {
                let ghost had = q@;
                match q.messages.pop_front() {
                    Some(m) => {
                        assert(q@.messages =~= had.messages.drop_first());
                        Ok(Some(m))
                    },
                    None => {
                        assert(q@.messages =~= had.messages);
                        if q.closed {
                            Err(NetError::LinkClosed)
                        } else {
                            Ok(None)
                        }
                    },
                }
            },
        }
    }

    /// Close this link from both directions.
    pub fn close(&self, net: &mut Lattice)
        requires
            old(net).wf(),
        ensures
            final(net).wf(),
            final(net)@ == old(net)@.with_closed(self.sends_to()).with_closed(
                self.receives_from(),
            ),
    {
        net.close_queue(self.tx);
        net.close_queue(self.rx);
    }
}

/// The queues of a fabric.
spec fn pipes(queues: Map<u64, Queue>) -> Map<u64, Pipe> {
    queues.map_values(|q: Queue| q@)
}

/// The listeners of a fabric.
spec fn listening(listeners: Map<u64, ListenerState>) -> Map<u64, Listening> {
    listeners.map_values(|l: ListenerState| l@)
}

/// Replacing a queue replaces its state.
proof fn lemma_replaced_pipe(queues: Map<u64, Queue>, key: u64)
    ensures
        forall|q: Queue| #[trigger] pipes(queues.insert(key, q)) == pipes(queues).insert(key, q@),
{
    assert forall|q: Queue| #[trigger] pipes(queues.insert(key, q)) == pipes(queues).insert(
        key,
        q@,
    ) by {
        assert(pipes(queues.insert(key, q)) =~= pipes(queues).insert(key, q@));
    }
}

/// Replacing a listener replaces its state.
proof fn lemma_replaced_listener(listeners: Map<u64, ListenerState>, key: u64)
    ensures
        forall|l: ListenerState| #[trigger]
            listening(listeners.insert(key, l)) == listening(listeners).insert(key, l@),
{
    assert forall|l: ListenerState| #[trigger]
        listening(listeners.insert(key, l)) == listening(listeners).insert(key, l@) by {
        assert(listening(listeners.insert(key, l)) =~= listening(listeners).insert(key, l@));
    }
}

/// The network fabric of a system.
pub struct Lattice {
    listeners: SortedMap<ListenerState>,
    denied: SortedMap<bool>,
    queues: SortedMap<Queue>,
    next_queue: u64,
}

impl View for Lattice {
    type V = Fabric;

    closed spec fn view(&self) -> Fabric {
        Fabric {
            listeners: listening(self.listeners@),
            denied: self.denied@.dom(),
            queues: pipes(self.queues@),
            next_queue: self.next_queue,
        }
    }
}

impl Lattice {
    /// The lists are in order.
    pub closed spec fn maps_wf(&self) -> bool {
        self.listeners.wf() && self.denied.wf() && self.queues.wf()
    }

    /// The lists are in order, gates are 16-bit numbers, and every queue is older
    /// than the next.
    pub open spec fn wf(&self) -> bool {
        self.maps_wf() && self@.wf()
    }

    /// The bounds of a well-formed fabric, on its lists.
    proof fn lemma_bounds(&self)
        requires
            self.wf(),
        ensures
            forall|k: u64| #[trigger]
                listening(self.listeners@).dom().contains(k) ==> k <= 0xffff,
            forall|k: u64| #[trigger]
                pipes(self.queues@).dom().contains(k) ==> k < self.next_queue,
    {
        assert(listening(self.listeners@) == self@.listeners);
        assert(pipes(self.queues@) == self@.queues);
    }

    /// Create an empty fabric (no listeners, warden allows all).
    pub fn new() -> (net: Lattice)
        ensures
            net.wf(),
            net@ == Fabric::empty(),
    {
        let net = Lattice {
            listeners: SortedMap::new(),
            denied: SortedMap::new(),
            queues: SortedMap::new(),
            next_queue: 0,
        };
        proof {
            assert(net@.listeners =~= Map::<u64, Listening>::empty());
            assert(net@.queues =~= Map::<u64, Pipe>::empty());
            assert(net@.denied =~= Set::<u64>::empty());
        }
        net
    }

    /// Warden: deny a gate (bind and connect both refused).
    pub fn warden_deny(&mut self, gate: Gate)
        requires
            old(self).wf(),
        ensures
            final(self).wf(),
            final(self)@ == (Fabric { denied: old(self)@.denied.insert(gate as u64), ..old(self)@ }),
    {
        self.denied.insert(gate as u64, true);
        assert(self@.denied =~= old(self)@.denied.insert(gate as u64));
    }

    /// Warden: allow a previously-denied gate.
    pub fn warden_allow(&mut self, gate: Gate)
        requires
            old(self).wf(),
        ensures
            final(self).wf(),
            final(self)@ == (Fabric { denied: old(self)@.denied.remove(gate as u64), ..old(self)@ }),
    {
        self.denied.remove(gate as u64);
        assert(self@.denied =~= old(self)@.denied.remove(gate as u64));
    }

    /// Whether the warden currently allows a gate.
    pub fn is_allowed(&self, gate: Gate) -> (r: bool)
        requires
            self.wf(),
        ensures
            r == self@.allows(gate),
    {
        !self.denied.contains_key(gate as u64)
    }

    /// Bind a gate to offer a service.
    pub fn bind(&mut self, gate: Gate) -> (r: Result<Listener, NetError>)
        requires
            old(self).wf(),
        ensures
            final(self).wf(),
            if !old(self)@.allows(gate) {
                r == Err::<Listener, NetError>(NetError::Blocked) && *final(self) == *old(self)
            } else if old(self)@.is_bound(gate) {
                r == Err::<Listener, NetError>(NetError::AlreadyBound) && *final(self)
                    == *old(self)
            } else {
                &&& r matches Ok(l) && l@ == gate
                &&& final(self)@ == old(self)@.with_listener(
                    gate,
                    Listening { pending: Seq::empty(), doorbell: None },
                )
            },
    {
        if self.denied.contains_key(gate as u64) {
            return Err(NetError::Blocked);
        }
        let ghost before = self.listeners@;
        proof {
            self.lemma_bounds();
        }
        assert(listening(before).dom() =~= before.dom());
        if self.listeners.contains_key(gate as u64) {
            return Err(NetError::AlreadyBound);
        }
        let state = ListenerState { pending: VecDeque::new(), doorbell: None };
        let ghost s = state@;
        assert(s == (Listening { pending: Seq::empty(), doorbell: None }));
        self.listeners.insert(gate as u64, state);
        proof {
            lemma_replaced_listener(before, gate as u64);
        }
        Ok(Listener { gate })
    }

    /// Whether there are queue numbers left for one more link.
    pub fn has_room(&self) -> (r: bool)
        ensures
            r == (self@.next_queue < u64::MAX - 1),
    {
        self.next_queue < 0xffff_ffff_ffff_fffe
    }

    /// Connect to a gate, establishing a link. The server's end awaits accept.
    pub fn connect(&mut self, gate: Gate) -> (r: Result<Link, NetError>)
        requires
            old(self).wf(),
            old(self)@.next_queue < u64::MAX - 1,
        ensures
            final(self).wf(),
            if !old(self)@.allows(gate) {
                r == Err::<Link, NetError>(NetError::Blocked) && final(self)@ == old(self)@
            } else if !old(self)@.is_bound(gate) {
                r == Err::<Link, NetError>(NetError::Refused) && final(self)@ == old(self)@
            } else {
                let c2s = old(self)@.next_queue;
                let s2c = (old(self)@.next_queue + 1) as u64;
                &&& r matches Ok(client) && client.runs(c2s, s2c)
                &&& exists|server: Link|
                    #![trigger old(self)@.connected(gate, server)]
                    server.runs(s2c, c2s) && final(self)@ == old(self)@.connected(gate, server)
            },
    {
        if self.denied.contains_key(gate as u64) {
            return Err(NetError::Blocked);
        }
        let c2s: u64 = self.next_queue;
        let s2c: u64 = self.next_queue + 1;
        let server = Link { tx: s2c, rx: c2s };
        let ghost before = self.listeners@;
        proof {
            self.lemma_bounds();
        }
        let ghost queues = self.queues@;
        proof {
            assert(listening(before).dom() =~= before.dom());
            lemma_replaced_listener(before, gate as u64);
            lemma_replaced_pipe(queues, c2s);
        }
        match self.listeners.get_mut(gate as u64) {
            None => return Err(NetError::Refused),
            Some(l) => {
                l.pending.push_back(server);
            },
        }
        self.queues.insert(c2s, Queue::new());
        proof {
            lemma_replaced_pipe(self.queues@, s2c);
        }
        self.queues.insert(s2c, Queue::new());
        self.next_queue = self.next_queue + 2;
        assert(self@ == old(self)@.connected(gate, server));
        Ok(Link { tx: c2s, rx: s2c })
    }

    /// Attach a notification channel ("doorbell") to a bound gate. A server parks on
    /// this channel's `recv`; [`Lattice::connect_signaling`] rings it.
    pub fn install_doorbell(&mut self, gate: Gate, doorbell: Channel)
        requires
            old(self).wf(),
        ensures
            final(self).wf(),
            final(self)@ == if old(self)@.is_bound(gate) {
                old(self)@.with_listener(
                    gate,
                    Listening {
                        doorbell: Some(doorbell@),
                        ..old(self)@.listeners[gate as u64]
                    },
                )
            } else {
                old(self)@
            },
    {
        let ghost before = self.listeners@;
        proof {
            self.lemma_bounds();
            assert(listening(before).dom() =~= before.dom());
            lemma_replaced_listener(before, gate as u64);
        }
        if let Some(l) = self.listeners.get_mut(gate as u64) {
            l.doorbell = Some(doorbell);
        }
    }

    /// The doorbell of a gate, for its server to wait on.
    pub fn doorbell(&mut self, gate: Gate) -> (r: Option<&mut Channel>)
        requires
            old(self).wf(),
        ensures
            final(self).wf(),
            match r {
                Some(c) => {
                    &&& old(self)@.is_bound(gate)
                    &&& old(self)@.listeners[gate as u64].doorbell == Some(c@)
                    &&& final(self)@ == old(self)@.with_listener(
                        gate,
                        Listening {
                            doorbell: Some(final(c)@),
                            ..old(self)@.listeners[gate as u64]
                        },
                    )
                },
                None => {
                    &&& !old(self)@.is_bound(gate) || old(self)@.listeners[gate as u64].doorbell
                        is None
                    &&& final(self)@ == old(self)@
                },
            },
    {
        let ghost before = self.listeners@;
        proof {
            self.lemma_bounds();
            assert(listening(before).dom() =~= before.dom());
            lemma_replaced_listener(before, gate as u64);
            if before.dom().contains(gate as u64) {
                assert(before.insert(gate as u64, before[gate as u64]) =~= before);
            }
            assert forall|l: ListenerState, k: u64| #[trigger]
                listening(before.insert(gate as u64, l)).dom().contains(k) implies k <= 0xffff by {
                assert(k == gate as u64 || listening(before).dom().contains(k));
            }
        }
        match self.listeners.get_mut(gate as u64) {
            None => None,
            Some(l) => l.doorbell.as_mut(),
        }
    }

    /// Like [`Lattice::connect`], but also rings this gate's doorbell (if one is
    /// installed) on behalf of `lane`, waking a parked server. The notification is
    /// best-effort: if the doorbell is full the connection is still established and
    /// will be picked up on the next wake.
    pub fn connect_signaling<K: KernelInterface>(
        &mut self,
        lane: LaneId,
        gate: Gate,
        kernel: &mut K,
    ) -> (r: Result<Link, NetError>)
        requires
            old(self).wf(),
            old(self)@.next_queue < u64::MAX - 1,
            old(kernel).sound(),
        ensures
            final(self).wf(),
            final(kernel).sound(),
            if !old(self)@.allows(gate) {
                &&& r == Err::<Link, NetError>(NetError::Blocked)
                &&& final(self)@ == old(self)@
                &&& *final(kernel) == *old(kernel)
            } else if !old(self)@.is_bound(gate) {
                &&& r == Err::<Link, NetError>(NetError::Refused)
                &&& final(self)@ == old(self)@
                &&& *final(kernel) == *old(kernel)
            } else {
                let c2s = old(self)@.next_queue;
                let s2c = (old(self)@.next_queue + 1) as u64;
                &&& r matches Ok(client) && client.runs(c2s, s2c)
                &&& exists|server: Link|
                    #![trigger old(self)@.connected(gate, server)]
                    server.runs(s2c, c2s) && {
                        let made = old(self)@.connected(gate, server);
                        let l = made.listeners[gate as u64];
                        match l.doorbell {
                            None => final(self)@ == made && *final(kernel) == *old(kernel),
                            Some(bell) => {
                                let (rung, _step, call) = bell.send(lane, seq![1u8]);
                                &&& final(self)@ == made.with_listener(
                                    gate,
                                    Listening { doorbell: Some(rung), ..l },
                                )
                                &&& kernel_did(*old(kernel), call, *final(kernel))
                            },
                        }
                    }
            },
    {
        match self.connect(gate) {
            Err(e) => Err(e),
            Ok(link) => {
                if let Some(bell) = self.doorbell(gate) {
                    let ring: [u8; 1] = [1];
                    assert(ring@ =~= seq![1u8]);
                    let _step = bell.try_send(lane, &ring, kernel);
                }
                Ok(link)
            },
        }
    }

    /// Scan a list of gates, reporting each one's status.
    pub fn scan(&self, gates: &[Gate]) -> (report: Vec<GateStatus>)
        requires
            self.wf(),
        ensures
            report@ == Seq::new(gates@.len(), |i: int| self@.status(gates@[i])),
    {
        let mut report: Vec<GateStatus> = Vec::new();
        let mut i: usize = 0;
        assert(listening(self.listeners@).dom() =~= self.listeners@.dom());
        while i < gates.len()
            invariant
                self.wf(),
                listening(self.listeners@).dom() == self.listeners@.dom(),
                i <= gates@.len(),
                report@ == Seq::new(i as nat, |j: int| self@.status(gates@[j])),
            decreases gates@.len() - i,
        {
            let gate: Gate = gates[i];
            let blocked: bool = self.denied.contains_key(gate as u64);
            let open: bool = !blocked && self.listeners.contains_key(gate as u64);
            report.push(GateStatus { gate, open, blocked });
            i = i + 1;
            assert(report@ =~= Seq::new(i as nat, |j: int| self@.status(gates@[j])));
        }
        report
    }

    /// All gates with a bound listener, in ascending order.
    pub fn open_gates(&self) -> (gates: Vec<Gate>)
        requires
            self.wf(),
        ensures
            forall|g: Gate| #[trigger] gates@.contains(g) <==> self@.is_bound(g),
            forall|i: int, j: int| 0 <= i < j < gates@.len() ==> gates@[i] < gates@[j],
    {
        let mut gates: Vec<Gate> = Vec::new();
        let mut i: usize = 0;
        let ghost order = self.listeners.order();
        proof {
            self.listeners.lemma_order();
            assert(listening(self.listeners@).dom() =~= self.listeners@.dom());
        }
        while i < self.listeners.len()
            invariant
                self.wf(),
                order == self.listeners.order(),
                ascending(order),
                forall|k: u64| #[trigger]
                    self.listeners@.dom().contains(k) <==> order.contains(k),
                listening(self.listeners@).dom() == self.listeners@.dom(),
                i <= order.len(),
                gates@.len() == i,
                forall|j: int| 0 <= j < i ==> (#[trigger] gates@[j]) as u64 == order[j],
            decreases order.len() - i,
        {
            let k: u64 = self.listeners.key_at(i);
            assert(self@.listeners.dom().contains(k));
            gates.push(k as u16);
            i = i + 1;
        }
        proof {
            assert forall|g: Gate| #[trigger] gates@.contains(g) <==> self@.is_bound(g) by {
                if gates@.contains(g) {
                    let j = choose|j: int| 0 <= j < gates@.len() && gates@[j] == g;
                    assert(order[j] == g as u64);
                    assert(order.contains(g as u64));
                }
                if self@.is_bound(g) {
                    assert(order.contains(g as u64));
                    let j = choose|j: int| 0 <= j < order.len() && order[j] == g as u64;
                    assert(gates@[j] == g);
                }
            }
        }
        gates
    }

    /// Take the next pending link of `gate`.
    fn accept(&mut self, gate: Gate) -> (r: Option<Link>)
        requires
            old(self).wf(),
        ensures
            final(self).wf(),
            old(self)@.accepts(gate, r, final(self)@),
    {
        let ghost before = self.listeners@;
        proof {
            self.lemma_bounds();
            assert(listening(before).dom() =~= before.dom());
            lemma_replaced_listener(before, gate as u64);
            if before.dom().contains(gate as u64) {
                assert(before.insert(gate as u64, before[gate as u64]) =~= before);
                assert(listening(before).insert(gate as u64, before[gate as u64]@)
                    =~= listening(before));
            }
        }
        match self.listeners.get_mut(gate as u64) {
            None => None,
            Some(l) => {
                let ghost had = l@;
                let r: Option<Link> = l.pending.pop_front();
                if r.is_some() {
                    assert(l@.pending =~= had.pending.drop_first());
                }
                r
            },
        }
    }

    /// Forget the listener of `gate`.
    fn unbind(&mut self, gate: Gate)
        requires
            old(self).wf(),
        ensures
            final(self).wf(),
            final(self)@ == (Fabric {
                listeners: old(self)@.listeners.remove(gate as u64),
                ..old(self)@
            }),
    {
        let ghost before = self.listeners@;
        proof {
            self.lemma_bounds();
        }
        self.listeners.remove(gate as u64);
        assert(listening(before.remove(gate as u64)) =~= listening(before).remove(gate as u64));
    }

    /// Close a queue.
    fn close_queue(&mut self, id: u64)
        requires
            old(self).wf(),
        ensures
            final(self).wf(),
            final(self)@ == old(self)@.with_closed(id),
    {
        let ghost before = self.queues@;
        proof {
            self.lemma_bounds();
            lemma_replaced_pipe(before, id);
            assert(pipes(before).dom() =~= before.dom());
        }
        if let Some(q) = self.queues.get_mut(id) {
            q.closed = true;
        }
    }
}

impl Fabric {
    /// Accepting on `gate` gives `r` and leaves `after`.
    pub open spec fn accepts(self, gate: Gate, r: Option<Link>, after: Fabric) -> bool {
        let l = self.listeners[gate as u64];
        if self.is_bound(gate) && l.pending.len() > 0 {
            &&& r == Some(l.pending[0])
            &&& after == self.with_listener(
                gate,
                Listening { pending: l.pending.drop_first(), ..l },
            )
        } else {
            r is None && after == self
        }
    }
}

impl Default for Lattice {
    fn default() -> (net: Lattice)
        ensures
            net.wf(),
            net@ == Fabric::empty(),
    {
        Lattice::new()
    }
}

/// A bound gate awaiting connections.
#[derive(Debug, PartialEq, Eq)]
pub struct Listener {
    gate: Gate,
}

impl View for Listener {
    type V = Gate;

    closed spec fn view(&self) -> Gate {
        self.gate
    }
}

impl Listener {
    /// This gate this listener holds.
    pub fn gate(&self) -> (g: Gate)
        ensures
            g == self@,
    {
        self.gate
    }

    /// Accept the next pending connection, or `None` if none is waiting yet.
    pub fn accept(&self, net: &mut Lattice) -> (r: Option<Link>)
        requires
            old(net).wf(),
        ensures
            final(net).wf(),
            old(net)@.accepts(self@, r, final(net)@),
    {
        net.accept(self.gate)
    }

    /// Unbind this gate, refusing further connections.
    pub fn close(self, net: &mut Lattice)
        requires
            old(net).wf(),
        ensures
            final(net).wf(),
            final(net)@ == (Fabric {
                listeners: old(net)@.listeners.remove(self@ as u64),
                ..old(net)@
            }),
    {
        net.unbind(self.gate);
    }
}

/// The result of scanning one gate.
#[derive(Debug, Clone, Copy, PartialEq, Eq, Structural)]
pub struct GateStatus {
    /// A gate number.
    pub gate: Gate,
    /// Whether a listener is bound (and this gate is allowed).
    pub open: bool,
    /// Whether the warden denies this gate.
    pub blocked: bool,
}

/// A denied gate is reported as blocked and never as open; allowing it again
/// restores its status.
pub proof fn denied_gate_is_blocked(f: Fabric, gate: Gate)
    ensures
        ({
            let s = (Fabric { denied: f.denied.insert(gate as u64), ..f }).status(gate);
            s.blocked && !s.open
        }),
        f.allows(gate) ==> (Fabric {
            denied: f.denied.insert(gate as u64).remove(gate as u64),
            ..f
        }).status(gate) == f.status(gate),
{
}

/// The two ends of a new link are crossed: what the client sends first is what the
/// server receives first, and the other way round; and neither sees its own.
pub proof fn link_ends_are_crossed(f: Fabric, gate: Gate, client: Link, server: Link, msg: Seq<u8>)
    requires
        f.wf(),
        f.next_queue < u64::MAX - 1,
        client.runs(f.next_queue, (f.next_queue + 1) as u64),
        server.runs((f.next_queue + 1) as u64, f.next_queue),
    ensures
        ({
            let made = f.connected(gate, server);
            let q = made.queue(client.sends_to());
            let sent = made.with_queue(
                client.sends_to(),
                Pipe { messages: q.messages.push(msg), ..q },
            );
            &&& !q.closed
            &&& sent.queue(server.receives_from()).messages == seq![msg]
            &&& sent.queue(client.receives_from()).messages.len() == 0
        }),
        ({
            let made = f.connected(gate, server);
            let q = made.queue(server.sends_to());
            let sent = made.with_queue(
                server.sends_to(),
                Pipe { messages: q.messages.push(msg), ..q },
            );
            &&& !q.closed
            &&& sent.queue(client.receives_from()).messages == seq![msg]
            &&& sent.queue(server.receives_from()).messages.len() == 0
        }),
{
    assert(Seq::<Seq<u8>>::empty().push(msg) =~= seq![msg]);
}

/// Closing one end closes both directions, for both ends; what was sent before can
/// still be received.
pub proof fn close_reaches_the_peer(f: Fabric, link: Link, peer: Link)
    requires
        peer.runs(link.receives_from(), link.sends_to()),
    ensures
        ({
            let shut = f.with_closed(link.sends_to()).with_closed(link.receives_from());
            &&& shut.queue(peer.sends_to()).closed
            &&& shut.queue(peer.receives_from()).closed
            &&& shut.queue(peer.receives_from()).messages == f.queue(
                peer.receives_from(),
            ).messages
        }),
{
}

/// A new link touches no queue that was there before.
pub proof fn connecting_leaves_links_alone(f: Fabric, gate: Gate, server: Link, id: u64)
    requires
        f.wf(),
        f.queues.dom().contains(id),
        f.next_queue < u64::MAX - 1,
    ensures
        f.connected(gate, server).queue(id) == f.queue(id),
{
}

/// A conversation. Where a gate is open, a connect gives the one side of a link and the
/// listener gets the other; what the client sends is what the server receives, and what
/// the server sends is what the client receives, unchanged. A denied gate cannot be
/// reached, and neither can one that nobody listens on.
pub proof fn link_carries_both_ways(
    c: &mut Lattice,
    gate: Gate,
    r: Result<Link, NetError>,
    allowed: bool,
    a: &mut Lattice,
    listener: Listener,
    got: Option<Link>,
    s: &mut Lattice,
    msg: &[u8],
    sent: Result<(), NetError>,
    v: &mut Lattice,
    heard: Result<Option<Vec<u8>>, NetError>,
    b: &mut Lattice,
    reply: &[u8],
    answered: Result<(), NetError>,
    w: &mut Lattice,
    back: Result<Option<Vec<u8>>, NetError>,
)
    requires
        old(c).wf(),
        old(c)@.next_queue < u64::MAX - 1,
        call_ensures(Lattice::is_allowed, (&*old(c), gate), allowed),
        call_ensures(Lattice::connect, (c, gate), r),
        listener@ == gate,
        *old(a) == *final(c),
        call_ensures(Listener::accept, (&listener, a), got),
        *old(s) == *final(a),
        r matches Ok(client) ==> call_ensures(Link::send, (&client, msg, s), sent),
        *old(v) == *final(s),
        r is Ok ==> (got matches Some(server) ==> call_ensures(Link::try_recv, (&server, v), heard)),
        *old(b) == *final(v),
        r is Ok ==> (got matches Some(server) ==> call_ensures(
            Link::send,
            (&server, reply, b),
            answered,
        )),
        *old(w) == *final(b),
        r matches Ok(client) ==> call_ensures(Link::try_recv, (&client, w), back),
        old(c)@.listeners.dom().contains(gate as u64)
            ==> old(c)@.listeners[gate as u64].pending.len() == 0,
    ensures
        r is Ok <==> allowed && old(c)@.listeners.dom().contains(gate as u64),
        !allowed ==> r == Err::<Link, NetError>(NetError::Blocked),
        allowed && r is Err ==> r == Err::<Link, NetError>(NetError::Refused),
        r is Err ==> got is None,
        r is Ok ==> {
            &&& got is Some
            &&& sent is Ok && answered is Ok
            &&& heard matches Ok(Some(m)) && m@ == msg@
            &&& back matches Ok(Some(m)) && m@ == reply@
        },
{
    if let Ok(client) = r {
        let f = old(c)@;
        let server = choose|server: Link|
            #![trigger f.connected(gate, server)]
            server.runs((f.next_queue + 1) as u64, f.next_queue) && final(c)@ == f.connected(
                gate,
                server,
            );
        let made = f.connected(gate, server);
        assert(made.listeners[gate as u64].pending =~= seq![server]);
        assert(got == Some(server));
        let q = old(s)@.queue(client.sends_to());
        assert(q.messages =~= Seq::<Seq<u8>>::empty());
        assert(q.messages.push(msg@).drop_first() =~= Seq::<Seq<u8>>::empty());
    }
}

/// Links end for both sides. Once either side has closed, neither can send; what was sent
/// before is received still, and only then the end shows. While nothing was sent and nobody
/// has closed, there is nothing to receive.
pub proof fn closing_ends_the_link(
    k: &mut Lattice,
    link: Link,
    peer: Link,
    s: &mut Lattice,
    msg: &[u8],
    sent: Result<(), NetError>,
    t: &mut Lattice,
    sent_too: Result<(), NetError>,
    v: &mut Lattice,
    heard: Result<Option<Vec<u8>>, NetError>,
)
    requires
        old(k).wf(),
        peer.runs(link.receives_from(), link.sends_to()),
        call_ensures(Link::close, (&link, k), ()),
        *old(s) == *final(k),
        call_ensures(Link::send, (&link, msg, s), sent),
        *old(t) == *final(k),
        call_ensures(Link::send, (&peer, msg, t), sent_too),
        *old(v) == *final(k),
        call_ensures(Link::try_recv, (&peer, v), heard),
    ensures
        sent == Err::<(), NetError>(NetError::LinkClosed),
        sent_too == Err::<(), NetError>(NetError::LinkClosed),
        ({
            let q = old(k)@.queue(link.sends_to());
            &&& q.messages.len() == 0 ==> heard == Err::<Option<Vec<u8>>, NetError>(
                NetError::LinkClosed,
            )
            &&& q.messages.len() > 0 ==> (heard matches Ok(Some(m)) && m@ == q.messages[0])
        }),
{
}

/// What the warden and a scan say of a gate: denied is blocked, and open is bound and not
/// denied; denying and allowing one gate changes the report on no other.
pub proof fn scan_reports_the_warden(
    d: &mut Lattice,
    denied: Lattice,
    a: &mut Lattice,
    allowed: Lattice,
    gate: Gate,
    gates: &[Gate],
    was: Vec<GateStatus>,
    shut: Vec<GateStatus>,
    reopened: Vec<GateStatus>,
    i: int,
)
    requires
        old(d).wf(),
        denied == *final(d),
        call_ensures(Lattice::warden_deny, (d, gate), ()),
        *old(a) == denied,
        allowed == *final(a),
        call_ensures(Lattice::warden_allow, (a, gate), ()),
        call_ensures(Lattice::scan, (&*old(d), gates), was),
        call_ensures(Lattice::scan, (&denied, gates), shut),
        call_ensures(Lattice::scan, (&allowed, gates), reopened),
        0 <= i < gates@.len(),
    ensures
        was@.len() == gates@.len() && shut@.len() == gates@.len() && reopened@.len() == gates@.len(),
        was@[i].gate == gates@[i] && shut@[i].gate == gates@[i] && reopened@[i].gate == gates@[i],
        gates@[i] == gate ==> shut@[i].blocked && !shut@[i].open && !reopened@[i].blocked && (reopened@[i].open
            <==> old(d)@.listeners.dom().contains(gate as u64)),
        gates@[i] != gate ==> shut@[i] == was@[i] && reopened@[i] == was@[i],
{
}

} // verus!
