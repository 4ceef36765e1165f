//! Channels.
//!
//! Point-to-point message channels between isolation boundaries, the system's IPC
//! primitive: bounded queues of byte messages. A receive on an empty channel parks
//! the lane until a send wakes it; a send to a full channel parks the lane
//! (back-pressure) until a receive wakes it. Messages are copied into and out of
//! the buffer, so neither end can observe or change the other's copy.
use std::collections::VecDeque;
use vstd::prelude::*;
use vstd::slice::slice_to_vec;
use crate::abi::ids::{BoundaryId, ChannelId, LaneId};
use crate::abi::sched::{KernelInterface, WaitResource};
use crate::abi::terms::{ChannelTerms, ProtocolError, Terms};
use crate::kernel::scheduler::{lemma_without_lane, Scheduler};
use crate::sorted_map::{ascending, SortedMap};

verus! {

/// The synchronous result of attempting a send.
#[derive(Debug, Clone, Copy, PartialEq, Eq, Structural)]
pub enum SendStep {
    /// The message was enqueued.
    Sent,
    /// The buffer is full; the lane has been registered to wait.
    Full,
    /// The channel is closed.
    Closed,
    /// The message exceeds the channel's maximum message size.
    TooLarge,
}

/// The synchronous result of attempting a receive.
#[derive(Debug, Clone, PartialEq, Eq)]
pub enum RecvStep {
    /// A message was dequeued.
    Message(Vec<u8>),
    /// The buffer is empty; the lane has been registered to wait.
    Empty,
    /// The channel is closed and drained.
    Closed,
}

/// How far an operation that may have to wait has come.
#[derive(Debug, Clone, PartialEq, Eq)]
pub enum Progress<T> {
    /// It waits, and is to be tried again once its lane is released.
    Pending,
    /// It is done.
    Ready(T),
}

/// What an operation asked of the kernel.
pub ghost enum KernelCall {
    /// Nothing.
    Nothing,
    /// Release a lane.
    Release(LaneId),
    /// Park a lane.
    Park(LaneId, WaitResource),
}

/// `call` took `before` to `after`.
pub open spec fn kernel_did<K: KernelInterface>(before: K, call: KernelCall, after: K) -> bool {
    match call {
        KernelCall::Nothing => after == before,
        KernelCall::Release(lane) => before.released(lane, after),
        KernelCall::Park(lane, resource) => before.parked(lane, resource, after),
    }
}

/// Release a lane, if there is one.
pub open spec fn release_of(waiter: Option<LaneId>) -> KernelCall {
    match waiter {
        Some(lane) => KernelCall::Release(lane),
        None => KernelCall::Nothing,
    }
}

/// The state of a channel.
pub ghost struct Chan {
    pub id: ChannelId,
    pub capacity: nat,
    pub max_message_bytes: nat,
    pub messages: Seq<Seq<u8>>,
    pub receiver_waiter: Option<LaneId>,
    pub sender_waiter: Option<LaneId>,
    pub closed: bool,
}

/// The result of a receive, by its bytes.
pub ghost enum Received {
    Message(Seq<u8>),
    Empty,
    Closed,
}

impl RecvStep {
    /// The result, by its bytes.
    pub open spec fn bytes(self) -> Received {
        match self {
            RecvStep::Message(m) => Received::Message(m@),
            RecvStep::Empty => Received::Empty,
            RecvStep::Closed => Received::Closed,
        }
    }
}

impl Chan {
    /// An open, empty channel with the given terms.
    pub open spec fn fresh(id: ChannelId, terms: Terms) -> Chan {
        Chan {
            id,
            capacity: terms.buffer_capacity as nat,
            max_message_bytes: terms.max_message_bytes as nat,
            messages: Seq::empty(),
            receiver_waiter: None,
            sender_waiter: None,
            closed: false,
        }
    }

    /// The buffer is within its bounds.
    pub open spec fn bounded(self) -> bool {
        &&& self.messages.len() <= self.capacity
        &&& forall|i: int|
            0 <= i < self.messages.len() ==> (#[trigger] self.messages[i]).len()
                <= self.max_message_bytes
    }

    /// A send: what becomes of the channel, what it answers, and what it asks of
    /// the kernel.
    pub open spec fn send(self, lane: LaneId, msg: Seq<u8>) -> (Chan, SendStep, KernelCall) {
        if self.closed {
            (self, SendStep::Closed, KernelCall::Nothing)
        } else if msg.len() > self.max_message_bytes {
            (self, SendStep::TooLarge, KernelCall::Nothing)
        } else if self.messages.len() < self.capacity {
            (
                Chan { messages: self.messages.push(msg), receiver_waiter: None, ..self },
                SendStep::Sent,
                release_of(self.receiver_waiter),
            )
        } else {
            (
                Chan { sender_waiter: Some(lane), ..self },
                SendStep::Full,
                KernelCall::Park(lane, WaitResource::ChannelBuffer(self.id)),
            )
        }
    }

    /// A receive: what becomes of the channel, what it answers, and what it asks of
    /// the kernel.
    pub open spec fn recv(self, lane: LaneId) -> (Chan, Received, KernelCall) {
        if self.messages.len() > 0 {
            (
                Chan {
                    messages: self.messages.subrange(1, self.messages.len() as int),
                    sender_waiter: None,
                    ..self
                },
                Received::Message(self.messages[0]),
                release_of(self.sender_waiter),
            )
        } else if self.closed {
            (self, Received::Closed, KernelCall::Nothing)
        } else {
            (
                Chan { receiver_waiter: Some(lane), ..self },
                Received::Empty,
                KernelCall::Park(lane, WaitResource::ChannelData(self.id)),
            )
        }
    }

    /// The channel closed, with no lane waiting.
    pub open spec fn shut(self) -> Chan {
        Chan { closed: true, receiver_waiter: None, sender_waiter: None, ..self }
    }
}

/// A channel: a bounded queue of byte messages, and the lanes that wait on it.
pub struct Channel {
    id: ChannelId,
    capacity: usize,
    max_message_bytes: usize,
    messages: VecDeque<Vec<u8>>,
    receiver_waiter: Option<LaneId>,
    sender_waiter: Option<LaneId>,
    closed: bool,
}

impl View for Channel {
    type V = Chan;

    closed spec fn view(&self) -> Chan {
        Chan {
            id: self.id,
            capacity: self.capacity as nat,
            max_message_bytes: self.max_message_bytes as nat,
            messages: Seq::new(self.messages@.len(), |i: int| self.messages@[i]@),
            receiver_waiter: self.receiver_waiter,
            sender_waiter: self.sender_waiter,
            closed: self.closed,
        }
    }
}

impl Channel {
    /// Create a channel from negotiated `terms`.
    pub fn new(id: ChannelId, terms: &ChannelTerms) -> (c: Channel)
        ensures
            c@ == Chan::fresh(id, terms@),
            c@.bounded(),
    {
        let c = Channel {
            id,
            capacity: terms.buffer_capacity as usize,
            max_message_bytes: terms.max_message_bytes as usize,
            messages: VecDeque::new(),
            receiver_waiter: None,
            sender_waiter: None,
            closed: false,
        };
        assert(c@.messages =~= Seq::<Seq<u8>>::empty());
        c
    }

    /// The channel identifier.
    pub fn id(&self) -> (id: ChannelId)
        ensures
            id == self@.id,
    {
        self.id
    }

    /// Number of messages currently buffered.
    pub fn pending(&self) -> (n: usize)
        ensures
            n == self@.messages.len(),
    {
        self.messages.len()
    }

    /// The largest message, in bytes.
    pub fn max_message_bytes(&self) -> (n: usize)
        ensures
            n == self@.max_message_bytes,
    {
        self.max_message_bytes
    }

    /// Whether the channel is closed.
    pub fn is_closed(&self) -> (r: bool)
        ensures
            r == self@.closed,
    {
        self.closed
    }

    /// Attempt to send `msg` on behalf of `lane`, registering a back-pressure wait
    /// if the buffer is full.
    pub fn try_send<K: KernelInterface>(
        &mut self,
        lane: LaneId,
        msg: &[u8],
        kernel: &mut K,
    ) -> (step: SendStep)
        requires
            old(kernel).sound(),
        ensures
            final(kernel).sound(),
            ({
                let (after, want, call) = old(self)@.send(lane, msg@);
                &&& final(self)@ == after
                &&& step == want
                &&& kernel_did(*old(kernel), call, *final(kernel))
            }),
            old(self)@.bounded() ==> final(self)@.bounded(),
    {
        if self.closed {
            return SendStep::Closed;
        }
        if msg.len() > self.max_message_bytes {
            return SendStep::TooLarge;
        }
        if self.messages.len() < self.capacity {
            self.messages.push_back(slice_to_vec(msg));
            assert(self@.messages =~= old(self)@.messages.push(msg@));
            let waiter: Option<LaneId> = self.receiver_waiter.take();
            if let Some(r) = waiter {
                kernel.signal_ready(r);
            }
            SendStep::Sent
        } else {
            self.sender_waiter = Some(lane);
            kernel.register_wait(lane, WaitResource::ChannelBuffer(self.id));
            SendStep::Full
        }
    }

    /// Attempt to receive on behalf of `lane`, registering a wait if the buffer is
    /// empty.
    pub fn try_recv<K: KernelInterface>(&mut self, lane: LaneId, kernel: &mut K) -> (step: RecvStep)
        requires
            old(kernel).sound(),
        ensures
            final(kernel).sound(),
            ({
                let (after, want, call) = old(self)@.recv(lane);
                &&& final(self)@ == after
                &&& step.bytes() == want
                &&& kernel_did(*old(kernel), call, *final(kernel))
            }),
            old(self)@.bounded() ==> final(self)@.bounded(),
    {
        match self.messages.pop_front() {
            Some(msg) => {
                assert(self@.messages =~= old(self)@.messages.subrange(
                    1,
                    old(self)@.messages.len() as int,
                ));
                let waiter: Option<LaneId> = self.sender_waiter.take();
                if let Some(s) = waiter {
                    kernel.signal_ready(s);
                }
                RecvStep::Message(msg)
            },
            None => {
                if self.closed {
                    return RecvStep::Closed;
                }
                self.receiver_waiter = Some(lane);
                kernel.register_wait(lane, WaitResource::ChannelData(self.id));
                assert(self@.messages =~= old(self)@.messages);
                RecvStep::Empty
            },
        }
    }

    /// Close the channel, waking any parked receiver and then any parked sender so
    /// they observe the closure.
    pub fn close<K: KernelInterface>(&mut self, kernel: &mut K)
        requires
            old(kernel).sound(),
        ensures
            final(kernel).sound(),
            final(self)@ == old(self)@.shut(),
            exists|between: K|
                #![trigger kernel_did(*old(kernel), release_of(old(self)@.receiver_waiter), between)]
                kernel_did(*old(kernel), release_of(old(self)@.receiver_waiter), between)
                    && kernel_did(
                    between,
                    release_of(old(self)@.sender_waiter),
                    *final(kernel),
                ),
            old(self)@.bounded() ==> final(self)@.bounded(),
    {
        self.closed = true;
        let recv_waiter: Option<LaneId> = self.receiver_waiter.take();
        let send_waiter: Option<LaneId> = self.sender_waiter.take();
        if let Some(r) = recv_waiter {
            kernel.signal_ready(r);
        }
        assert(kernel_did(*old(kernel), release_of(old(self)@.receiver_waiter), *kernel));
        if let Some(s) = send_waiter {
            kernel.signal_ready(s);
        }
    }

    /// The sending of `payload` on behalf of `lane`, to be polled until done.
    pub fn send(&self, lane: LaneId, payload: Vec<u8>) -> (s: ChannelSend)
        ensures
            s.lane == lane,
            s.payload@ == payload@,
    {
        ChannelSend { lane, payload }
    }

    /// A receive on behalf of `lane`, to be polled until done.
    pub fn recv(&self, lane: LaneId) -> (r: ChannelRecv)
        ensures
            r.lane == lane,
    {
        ChannelRecv { lane }
    }
}

/// A send that completes when `payload` has been enqueued (or the channel is
/// closed / the message is too large).
pub struct ChannelSend {
    /// The lane that sends.
    pub lane: LaneId,
    /// The message.
    pub payload: Vec<u8>,
}

/// How a send stands after one attempt.
pub open spec fn send_progress(step: SendStep, size: usize, maximum: usize) -> Progress<
    Result<(), ProtocolError>,
> {
    match step {
        SendStep::Sent => Progress::Ready(Ok(())),
        SendStep::Full => Progress::Pending,
        SendStep::Closed => Progress::Ready(Err(ProtocolError::ChannelClosed)),
        SendStep::TooLarge => Progress::Ready(
            Err(ProtocolError::MessageTooLarge { size, maximum }),
        ),
    }
}

impl ChannelSend {
    /// Try the send once.
    pub fn poll<K: KernelInterface>(&self, channel: &mut Channel, kernel: &mut K) -> (p: Progress<
        Result<(), ProtocolError>,
    >)
        requires
            old(kernel).sound(),
        ensures
            final(kernel).sound(),
            ({
                let (after, step, call) = old(channel)@.send(self.lane, self.payload@);
                &&& final(channel)@ == after
                &&& p == send_progress(
                    step,
                    self.payload@.len() as usize,
                    old(channel)@.max_message_bytes as usize,
                )
                &&& kernel_did(*old(kernel), call, *final(kernel))
            }),
    {
        match channel.try_send(self.lane, self.payload.as_slice(), kernel) {
            SendStep::Sent => Progress::Ready(Ok(())),
            SendStep::Full => Progress::Pending,
            SendStep::Closed => Progress::Ready(Err(ProtocolError::ChannelClosed)),
            SendStep::TooLarge => Progress::Ready(
                Err(
                    ProtocolError::MessageTooLarge {
                        size: self.payload.len(),
                        maximum: channel.max_message_bytes(),
                    },
                ),
            ),
        }
    }
}

/// A receive that completes with a message (or a closed-channel error).
pub struct ChannelRecv {
    /// The lane that receives.
    pub lane: LaneId,
}

impl ChannelRecv {
    /// Try the receive once.
    pub fn poll<K: KernelInterface>(&self, channel: &mut Channel, kernel: &mut K) -> (p: Progress<
        Result<Vec<u8>, ProtocolError>,
    >)
        requires
            old(kernel).sound(),
        ensures
            final(kernel).sound(),
            ({
                let (after, want, call) = old(channel)@.recv(self.lane);
                &&& final(channel)@ == after
                &&& kernel_did(*old(kernel), call, *final(kernel))
                &&& match want {
                    Received::Message(m) => p matches Progress::Ready(Ok(b)) && b@ == m,
                    Received::Empty => p is Pending,
                    Received::Closed => p == Progress::Ready(
                        Err::<Vec<u8>, ProtocolError>(ProtocolError::ChannelClosed),
                    ),
                }
            }),
    {
        match channel.try_recv(self.lane, kernel) {
            RecvStep::Message(m) => Progress::Ready(Ok(m)),
            RecvStep::Empty => Progress::Pending,
            RecvStep::Closed => Progress::Ready(Err(ProtocolError::ChannelClosed)),
        }
    }
}

/// What was sent last is received after what was buffered, unchanged: a message
/// sent to an empty channel is the next one received.
pub proof fn messages_keep_their_order(c: Chan, sender: LaneId, receiver: LaneId, msg: Seq<u8>)
    requires
        c.send(sender, msg).1 is Sent,
    ensures
        ({
            let sent = c.send(sender, msg).0;
            let (after, got, _call) = sent.recv(receiver);
            &&& c.messages.len() == 0 ==> got == Received::Message(msg) && after.messages.len() == 0
            &&& c.messages.len() > 0 ==> got == Received::Message(c.messages[0])
                && after.messages.last() == msg
        }),
{
}

/// A lane that waits for data is released by the next send that succeeds, and a
/// lane that waits for room by the next receive.
pub proof fn waiters_are_woken(c: Chan, sender: LaneId, receiver: LaneId, msg: Seq<u8>)
    requires
        c.bounded(),
    ensures
        ({
            let (parked, got, _call) = c.recv(receiver);
            got is Empty && msg.len() <= c.max_message_bytes && c.capacity > 0 ==> parked.send(
                sender,
                msg,
            ).1 is Sent && parked.send(sender, msg).2 == KernelCall::Release(receiver)
        }),
        ({
            let (parked, step, _call) = c.send(sender, msg);
            step is Full && c.capacity > 0 ==> parked.recv(receiver).2 == KernelCall::Release(
                sender,
            )
        }),
{
}

/// A closed channel takes no more messages, but gives up those it holds before it
/// reports that it is closed.
pub proof fn closed_channel_drains(c: Chan, sender: LaneId, receiver: LaneId, msg: Seq<u8>)
    ensures
        c.shut().send(sender, msg) == (c.shut(), SendStep::Closed, KernelCall::Nothing),
        c.messages.len() > 0 ==> c.shut().recv(receiver).1 == Received::Message(c.messages[0]),
        c.messages.len() == 0 ==> c.shut().recv(receiver).1 is Closed,
{
}

/// A request for a channel: whom to reach, and on what terms.
pub struct ChannelRequest {
    /// The boundary being asked.
    pub target: BoundaryId,
    /// The terms proposed.
    pub terms: ChannelTerms,
}

/// A queued cross-boundary channel request: who asked, whom they want to reach,
/// and the exact terms they proposed.
struct PendingRequest {
    from: BoundaryId,
    target: BoundaryId,
    terms: ChannelTerms,
}

/// A queued request as a mathematical value.
pub ghost struct Queued {
    pub from: BoundaryId,
    pub target: BoundaryId,
    pub terms: Terms,
}

/// The state of a channel registry. `order` lists the pending requests, oldest
/// first.
pub ghost struct Requests {
    pub next_id: u64,
    pub next_request: u64,
    pub pending: Map<u64, Queued>,
    pub order: Seq<u64>,
}

impl Requests {
    /// `order` lists the pending requests in ascending order.
    pub open spec fn wf(self) -> bool {
        &&& ascending(self.order)
        &&& forall|k: u64| #[trigger] self.pending.dom().contains(k) <==> self.order.contains(k)
        &&& forall|k: u64| #[trigger] self.pending.dom().contains(k) ==> k < self.next_request
    }

    /// `id` is the oldest request for `target`.
    pub open spec fn oldest_for(self, target: BoundaryId, id: u64) -> bool {
        &&& self.pending.dom().contains(id)
        &&& self.pending[id].target == target
        &&& forall|k: u64|
            #[trigger] self.pending.dom().contains(k) && self.pending[k].target == target ==> id
                <= k
    }

    /// Some request is for `target`.
    pub open spec fn any_for(self, target: BoundaryId) -> bool {
        exists|k: u64|
            #[trigger] self.pending.dom().contains(k) && self.pending[k].target == target
    }

    /// Request `id` is pending and addressed to `target`.
    pub open spec fn addressed(self, id: u64, target: BoundaryId) -> bool {
        self.pending.dom().contains(id) && self.pending[id].target == target
    }

    /// `step` leads from this state to `next`.
    pub open spec fn stepped(self, next: Requests, step: RegistryStep) -> bool {
        match step {
            RegistryStep::Create => {
                &&& self.next_id < u64::MAX
                &&& next == (Requests { next_id: (self.next_id + 1) as u64, ..self })
            },
            RegistryStep::Request { from, target, terms } => {
                &&& self.next_request < u64::MAX
                &&& next == (Requests {
                    next_request: (self.next_request + 1) as u64,
                    pending: self.pending.insert(self.next_request, Queued { from, target, terms }),
                    order: next.order,
                    ..self
                })
            },
            RegistryStep::Accept { id, target } => if self.addressed(id, target) {
                &&& self.next_id < u64::MAX
                &&& next == (Requests {
                    next_id: (self.next_id + 1) as u64,
                    pending: self.pending.remove(id),
                    order: next.order,
                    ..self
                })
            } else {
                next == self
            },
            RegistryStep::Reject { id, target } => if self.addressed(id, target) {
                next == (Requests {
                    pending: self.pending.remove(id),
                    order: next.order,
                    ..self
                })
            } else {
                next == self
            },
        }
    }

    /// `step` hands out a channel in this state.
    pub open spec fn opens(self, step: RegistryStep) -> bool {
        match step {
            RegistryStep::Create => true,
            RegistryStep::Accept { id, target } => self.addressed(id, target),
            _ => false,
        }
    }

    /// `step` answers request `id` in this state.
    pub open spec fn answers(self, step: RegistryStep, id: u64) -> bool {
        match step {
            RegistryStep::Accept { id: i, target } => i == id && self.addressed(id, target),
            RegistryStep::Reject { id: i, target } => i == id && self.addressed(id, target),
            _ => false,
        }
    }
}

/// A call that changes a channel registry.
pub ghost enum RegistryStep {
    Create,
    Request { from: BoundaryId, target: BoundaryId, terms: Terms },
    Accept { id: u64, target: BoundaryId },
    Reject { id: u64, target: BoundaryId },
}

/// `steps` lead from each state of `run` to the one after it.
pub open spec fn is_run(run: Seq<Requests>, steps: Seq<RegistryStep>) -> bool {
    &&& run.len() == steps.len() + 1
    &&& forall|i: int| 0 <= i < steps.len() ==> (#[trigger] run[i]).stepped(run[i + 1], steps[i])
}

/// Assigns channel identifiers and runs the cross-boundary request/accept-or-reject
/// handshake. A channel only comes into existence once the target boundary accepts:
/// a requester can never force contact into another boundary. Terms are accepted
/// wholesale or rejected; there is no counter-proposal.
pub struct ChannelRegistry {
    next_id: u64,
    pending: SortedMap<PendingRequest>,
    next_request: u64,
}

impl View for ChannelRegistry {
    type V = Requests;

    closed spec fn view(&self) -> Requests {
        Requests {
            next_id: self.next_id,
            next_request: self.next_request,
            pending: self.pending@.map_values(
                |r: PendingRequest| Queued { from: r.from, target: r.target, terms: r.terms@ },
            ),
            order: self.pending.order(),
        }
    }
}

impl ChannelRegistry {
    /// The pending requests are in order.
    pub closed spec fn map_wf(&self) -> bool {
        self.pending.wf()
    }

    /// The pending requests are in order, and all older than the next.
    pub open spec fn wf(&self) -> bool {
        self.map_wf() && self@.wf()
    }

    /// Create a new registry.
    pub fn new() -> (r: ChannelRegistry)
        ensures
            r.wf(),
            r@ == (Requests {
                next_id: 1,
                next_request: 1,
                pending: Map::empty(),
                order: Seq::empty(),
            }),
    {
        let r = ChannelRegistry { next_id: 1, pending: SortedMap::new(), next_request: 1 };
        assert(r@.pending =~= Map::<u64, Queued>::empty());
        r
    }

    /// Allocate a fresh channel built from `terms`.
    pub fn create(&mut self, terms: &ChannelTerms) -> (c: Channel)
        requires
            old(self).wf(),
            old(self)@.next_id < u64::MAX,
        ensures
            final(self).wf(),
            c@ == Chan::fresh(ChannelId(old(self)@.next_id), terms@),
            final(self)@ == (Requests { next_id: (old(self)@.next_id + 1) as u64, ..old(self)@ }),
            old(self)@.stepped(final(self)@, RegistryStep::Create),
    {
        let id: ChannelId = ChannelId(self.next_id);
        self.next_id = self.next_id + 1;
        Channel::new(id, terms)
    }

    /// Queue a cross-boundary channel request from `from` to `request.target` with
    /// the proposed `request.terms`. Returns a request id by which the requester
    /// can learn the outcome. The channel does not exist yet.
    pub fn request(&mut self, from: BoundaryId, request: &ChannelRequest) -> (id: u64)
        requires
            old(self).wf(),
            old(self)@.next_request < u64::MAX,
        ensures
            final(self).wf(),
            id == old(self)@.next_request,
            !old(self)@.pending.dom().contains(id),
            final(self)@ == (Requests {
                next_request: (id + 1) as u64,
                pending: old(self)@.pending.insert(
                    id,
                    Queued { from, target: request.target, terms: request.terms@ },
                ),
                order: final(self)@.order,
                ..old(self)@
            }),
            old(self)@.stepped(
                final(self)@,
                RegistryStep::Request { from, target: request.target, terms: request.terms@ },
            ),
    {
        let id: u64 = self.next_request;
        self.next_request = self.next_request + 1;
        self.pending.insert(
            id,
            PendingRequest { from, target: request.target, terms: request.terms.copy() },
        );
        proof {
            self.pending.lemma_order();
            assert(self@.pending =~= old(self)@.pending.insert(
                id,
                Queued { from, target: request.target, terms: request.terms@ },
            ));
        }
        id
    }

    /// The next pending request addressed to `target`, if any: its id, the
    /// requesting boundary, and the proposed terms. A boundary can never observe
    /// requests meant for another.
    pub fn poll(&self, target: BoundaryId) -> (r: Option<(u64, BoundaryId, ChannelTerms)>)
        requires
            self.wf(),
        ensures
            match r {
                Some((id, from, terms)) => {
                    &&& self@.oldest_for(target, id)
                    &&& from == self@.pending[id].from
                    &&& terms@ == self@.pending[id].terms
                },
                None => !self@.any_for(target),
            },
    {
        let ghost order = self.pending.order();
        let mut i: usize = 0;
        while i < self.pending.len()
            invariant
                self.wf(),
                order == self.pending.order(),
                i <= order.len(),
                forall|j: int|
                    0 <= j < i ==> self@.pending[#[trigger] order[j]].target != target,
            decreases order.len() - i,
        {
            let id: u64 = self.pending.key_at(i);
            let r: &PendingRequest = self.pending.value_at(i);
            if r.target == target {
                proof {
                    assert(self@.pending.dom().contains(id));
                    assert forall|k: u64|
                        #[trigger] self@.pending.dom().contains(k) && self@.pending[k].target
                            == target implies id <= k by {
                        assert(order.contains(k));
                        let j = choose|j: int| 0 <= j < order.len() && order[j] == k;
                        assert(self@.pending[order[j]].target == target);
                    }
                }
                return Some((id, r.from, r.terms.copy()));
            }
            assert(self@.pending[order[i as int]].target != target);
            i = i + 1;
        }
        proof {
            assert forall|k: u64| #[trigger] self@.pending.dom().contains(k) implies
                self@.pending[k].target != target by {
                assert(order.contains(k));
                let j = choose|j: int| 0 <= j < order.len() && order[j] == k;
                assert(self@.pending[order[j]].target != target);
            }
        }
        None
    }

    /// Take a pending request out, if it is addressed to `target`.
    fn take(&mut self, request_id: u64, target: BoundaryId) -> (r: Option<PendingRequest>)
        requires
            old(self).wf(),
        ensures
            final(self).wf(),
            match r {
                Some(q) => {
                    &&& old(self)@.addressed(request_id, target)
                    &&& q.from == old(self)@.pending[request_id].from
                    &&& q.terms@ == old(self)@.pending[request_id].terms
                    &&& final(self)@ == (Requests {
                        pending: old(self)@.pending.remove(request_id),
                        order: final(self)@.order,
                        ..old(self)@
                    })
                },
                None => !old(self)@.addressed(request_id, target) && *final(self) == *old(self),
            },
    {
        let found: bool = match self.pending.get(request_id) {
            Some(r) => r.target == target,
            None => false,
        };
        if found {
            let r: Option<PendingRequest> = self.pending.remove(request_id);
            proof {
                self.pending.lemma_order();
                assert(self@.pending =~= old(self)@.pending.remove(request_id));
            }
            r
        } else {
            None
        }
    }

    /// Accept a pending request wholesale, creating the channel from exactly the
    /// proposed terms. Returns the channel together with the requester's boundary,
    /// so the caller can register both ends. `None` if the request is unknown or
    /// addressed to another boundary.
    pub fn accept(&mut self, request_id: u64, target: BoundaryId) -> (r: Option<
        (Channel, BoundaryId),
    >)
        requires
            old(self).wf(),
            old(self)@.addressed(request_id, target) ==> old(self)@.next_id < u64::MAX,
        ensures
            final(self).wf(),
            old(self)@.stepped(final(self)@, RegistryStep::Accept { id: request_id, target }),
            match r {
                Some((channel, from)) => {
                    &&& old(self)@.addressed(request_id, target)
                    &&& channel@ == Chan::fresh(
                        ChannelId(old(self)@.next_id),
                        old(self)@.pending[request_id].terms,
                    )
                    &&& from == old(self)@.pending[request_id].from
                    &&& final(self)@ == (Requests {
                        next_id: (old(self)@.next_id + 1) as u64,
                        pending: old(self)@.pending.remove(request_id),
                        order: final(self)@.order,
                        ..old(self)@
                    })
                },
                None => !old(self)@.addressed(request_id, target) && final(self)@ == old(self)@,
            },
    {
        match self.take(request_id, target) {
            None => None,
            Some(req) => {
                let channel: Channel = self.create(&req.terms);
                Some((channel, req.from))
            },
        }
    }

    /// Reject a pending request: drop it. Only the actual target may reject.
    /// Returns whether a request was removed.
    pub fn reject(&mut self, request_id: u64, target: BoundaryId) -> (r: bool)
        requires
            old(self).wf(),
        ensures
            final(self).wf(),
            old(self)@.stepped(final(self)@, RegistryStep::Reject { id: request_id, target }),
            r == old(self)@.addressed(request_id, target),
            r ==> final(self)@ == (Requests {
                pending: old(self)@.pending.remove(request_id),
                order: final(self)@.order,
                ..old(self)@
            }),
            !r ==> *final(self) == *old(self),
    {
        match self.take(request_id, target) {
            Some(_) => true,
            None => false,
        }
    }

    /// Whether a request is still pending (neither accepted nor rejected).
    pub fn is_pending(&self, request_id: u64) -> (r: bool)
        requires
            self.wf(),
        ensures
            r == self@.pending.dom().contains(request_id),
    {
        self.pending.contains_key(request_id)
    }
}

impl Default for ChannelRegistry {
    fn default() -> (r: ChannelRegistry)
        ensures
            r.wf(),
            r@ == (Requests {
                next_id: 1,
                next_request: 1,
                pending: Map::empty(),
                order: Seq::empty(),
            }),
    {
        ChannelRegistry::new()
    }
}

/// A request is visible to its target and to no other boundary, and only its
/// target can answer it.
pub proof fn requests_are_point_to_point(s: Requests, id: u64, other: BoundaryId)
    requires
        s.pending.dom().contains(id),
        other != s.pending[id].target,
    ensures
        !s.oldest_for(other, id),
        !s.addressed(id, other),
        s.addressed(id, s.pending[id].target),
        s.any_for(s.pending[id].target),
{
}

/// A request stays as it was made through whatever other calls follow, until a call
/// answers it; and its number is never given again.
pub proof fn request_stays_until_answered(
    run: Seq<Requests>,
    steps: Seq<RegistryStep>,
    id: u64,
)
    requires
        is_run(run, steps),
        run[0].wf(),
        run[0].pending.dom().contains(id),
        forall|i: int| 0 <= i < steps.len() ==> !(#[trigger] run[i]).answers(steps[i], id),
    ensures
        run.last().pending.dom().contains(id),
        run.last().pending[id] == run[0].pending[id],
        id < run.last().next_request,
{
    lemma_request_stays(run, steps, id);
}

/// What is no longer pending, or never was and has a number already passed, never
/// becomes pending: a request is answered once.
pub proof fn answered_request_stays_answered(
    run: Seq<Requests>,
    steps: Seq<RegistryStep>,
    id: u64,
)
    requires
        is_run(run, steps),
        !run[0].pending.dom().contains(id),
        id < run[0].next_request,
    ensures
        !run.last().pending.dom().contains(id),
        id < run.last().next_request,
        forall|b: BoundaryId| !run.last().addressed(id, b),
    decreases steps.len(),
{
    if steps.len() > 0 {
        let n = steps.len() - 1;
        let before = run.drop_last();
        let init = steps.drop_last();
        assert forall|i: int| 0 <= i < init.len() implies (#[trigger] before[i]).stepped(
            before[i + 1],
            init[i],
        ) by {
            assert(before[i] == run[i] && before[i + 1] == run[i + 1] && init[i] == steps[i]);
            assert(run[i].stepped(run[i + 1], steps[i]));
        }
        answered_request_stays_answered(before, init, id);
        assert(run[n].stepped(run[n + 1], steps[n]));
        assert(before.last() == run[n]);
    }
}

/// Channel ids only go up.
proof fn lemma_ids_go_up(run: Seq<Requests>, steps: Seq<RegistryStep>, i: int, j: int)
    requires
        is_run(run, steps),
        0 <= i <= j < run.len(),
    ensures
        run[i].next_id <= run[j].next_id,
        run[i].next_request <= run[j].next_request,
    decreases j - i,
{
    if i < j {
        lemma_ids_go_up(run, steps, i, j - 1);
        assert(run[j - 1].stepped(run[j - 1 + 1], steps[j - 1]));
    }
}

/// The channel that a call hands out has an id that no call before it handed out.
pub proof fn channel_ids_are_never_reused(
    run: Seq<Requests>,
    steps: Seq<RegistryStep>,
    i: int,
    j: int,
)
    requires
        is_run(run, steps),
        0 <= i < j < steps.len(),
        run[i].opens(steps[i]),
        run[j].opens(steps[j]),
    ensures
        run[i].next_id < run[j].next_id,
{
    assert(run[i].stepped(run[i + 1], steps[i]));
    lemma_ids_go_up(run, steps, i + 1, j);
}

/// The whole of a handshake. A request is made, and calls that do not answer it
/// follow. Then it can be accepted by its target and by no other boundary: by the
/// target, with exactly the terms that were proposed and on behalf of who proposed
/// them, whereupon nobody can accept it again; by another boundary, without any
/// change, so that every boundary still sees what it saw.
pub proof fn request_is_accepted_once_by_its_target(
    run: Seq<Requests>,
    steps: Seq<RegistryStep>,
    from: BoundaryId,
    target: BoundaryId,
    terms: Terms,
    b: BoundaryId,
    next: Requests,
)
    requires
        is_run(run, steps),
        run[0].wf(),
        steps.len() > 0,
        steps[0] == (RegistryStep::Request { from, target, terms }),
        forall|i: int|
            0 <= i < steps.len() ==> !(#[trigger] run[i]).answers(steps[i], run[0].next_request),
        run.last().stepped(next, RegistryStep::Accept { id: run[0].next_request, target: b }),
    ensures
        ({
            let id = run[0].next_request;
            let s = run.last();
            &&& s.pending.dom().contains(id)
            &&& s.pending[id] == (Queued { from, target, terms })
            &&& s.addressed(id, b) <==> b == target
            &&& b == target ==> {
                &&& !next.pending.dom().contains(id)
                &&& id < next.next_request
                &&& forall|c: BoundaryId| !next.addressed(id, c)
                &&& s.opens(RegistryStep::Accept { id, target: b })
                &&& next.next_id == s.next_id + 1
            }
            &&& b != target ==> next == s
        }),
{
    let id = run[0].next_request;
    assert(run[0].stepped(run[0int + 1], steps[0]));
    let rest = run.subrange(1, run.len() as int);
    let later = steps.subrange(1, steps.len() as int);
    assert forall|i: int| 0 <= i < later.len() implies (#[trigger] rest[i]).stepped(
        rest[i + 1],
        later[i],
    ) && !rest[i].answers(later[i], id) by {
        assert(rest[i] == run[i + 1] && rest[i + 1] == run[i + 2] && later[i] == steps[i + 1]);
        assert(run[i + 1].stepped(run[i + 1 + 1], steps[i + 1]));
    }
    assert(rest[0] == run[1]);
    assert(rest.last() == run.last());
    lemma_request_stays(rest, later, id);
}

/// As [`request_stays_until_answered`], where only the number has to be known.
proof fn lemma_request_stays(run: Seq<Requests>, steps: Seq<RegistryStep>, id: u64)
    requires
        is_run(run, steps),
        id < run[0].next_request,
        run[0].pending.dom().contains(id),
        forall|i: int| 0 <= i < steps.len() ==> !(#[trigger] run[i]).answers(steps[i], id),
    ensures
        run.last().pending.dom().contains(id),
        run.last().pending[id] == run[0].pending[id],
        id < run.last().next_request,
    decreases steps.len(),
{
    if steps.len() > 0 {
        let n = steps.len() - 1;
        let before = run.drop_last();
        let init = steps.drop_last();
        assert forall|i: int| 0 <= i < init.len() implies (#[trigger] before[i]).stepped(
            before[i + 1],
            init[i],
        ) && !before[i].answers(init[i], id) by {
            assert(before[i] == run[i] && before[i + 1] == run[i + 1] && init[i] == steps[i]);
            assert(run[i].stepped(run[i + 1], steps[i]));
        }
        lemma_request_stays(before, init, id);
        assert(run[n].stepped(run[n + 1], steps[n]));
        assert(!run[n].answers(steps[n], id));
        assert(before.last() == run[n]);
    }
}

/// What a channel made of terms is: empty and open, with the capacity and the largest
/// message that the terms say. A message is taken exactly if the channel is open, the
/// message is no longer than that, and the buffer holds fewer than its capacity. It then
/// stands behind all others, which are as they were. A message too long or to a closed
/// channel changes nothing.
pub proof fn messages_are_taken_within_the_terms<K: KernelInterface>(
    id: ChannelId,
    terms: &ChannelTerms,
    made: Channel,
    c: &mut Channel,
    lane: LaneId,
    msg: &[u8],
    kernel: &mut K,
    step: SendStep,
)
    requires
        call_ensures(Channel::new, (id, terms), made),
        call_ensures(Channel::try_send::<K>, (c, lane, msg, kernel), step),
        old(c)@.bounded(),
    ensures
        made@.messages.len() == 0 && !made@.closed && made@.id == id,
        made@.capacity == terms.buffer_capacity && made@.max_message_bytes
            == terms.max_message_bytes,
        made@.receiver_waiter is None && made@.sender_waiter is None,
        ({
            let n = old(c)@.messages.len();
            let fits = msg@.len() <= old(c)@.max_message_bytes;
            &&& step is Closed <==> old(c)@.closed
            &&& step is TooLarge <==> !old(c)@.closed && !fits
            &&& step is Sent <==> !old(c)@.closed && fits && n < old(c)@.capacity
            &&& step is Full <==> !old(c)@.closed && fits && n == old(c)@.capacity
            &&& step is Sent ==> final(c)@.messages.len() == n + 1 && final(c)@.messages[n as int]
                == msg@
            &&& !(step is Sent) ==> final(c)@.messages.len() == n
            &&& forall|i: int|
                0 <= i < n ==> #[trigger] final(c)@.messages[i] == old(c)@.messages[i]
            &&& step is Closed || step is TooLarge ==> final(c)@ == old(c)@ && *final(kernel) == *old(kernel)
            &&& final(c)@.closed == old(c)@.closed && final(c)@.capacity == old(c)@.capacity
        }),
{
}

/// A receive gives the oldest message, and leaves the others in their order, whether the
/// channel is closed or not; without a message, a closed channel says so.
pub proof fn oldest_message_is_received<K: KernelInterface>(
    c: &mut Channel,
    lane: LaneId,
    kernel: &mut K,
    step: RecvStep,
)
    requires
        call_ensures(Channel::try_recv::<K>, (c, lane, kernel), step),
    ensures
        ({
            let n = old(c)@.messages.len();
            &&& step is Message <==> n > 0
            &&& step is Closed <==> n == 0 && old(c)@.closed
            &&& step is Empty <==> n == 0 && !old(c)@.closed
            &&& step matches RecvStep::Message(m) ==> {
                &&& m@ == old(c)@.messages[0]
                &&& final(c)@.messages.len() == n - 1
                &&& forall|i: int|
                    0 <= i < n - 1 ==> #[trigger] final(c)@.messages[i] == old(c)@.messages[i + 1]
            }
            &&& step is Closed ==> final(c)@ == old(c)@ && *final(kernel) == *old(kernel)
            &&& final(c)@.closed == old(c)@.closed
        }),
{
}

/// Waiting on a channel, under a scheduler. A lane that finds no message waits for data of
/// that channel, and is not ready; once a message is sent it is ready and waits for
/// nothing. A lane that finds no room waits for room in that channel, and is ready once a
/// message was received.
pub proof fn waiting_lanes_are_served(
    r: &mut Channel,
    receiver: LaneId,
    k: &mut Scheduler,
    empty: RecvStep,
    s: &mut Channel,
    sender: LaneId,
    msg: &[u8],
    m: &mut Scheduler,
    step: SendStep,
)
    requires
        old(k).wf(),
        call_ensures(Channel::try_recv::<Scheduler>, (r, receiver, k), empty),
        empty is Empty,
        *old(s) == *final(r),
        *old(m) == *final(k),
        call_ensures(Channel::try_send::<Scheduler>, (s, sender, msg, m), step),
        step is Sent,
    ensures
        final(k)@.stalled.dom().contains(receiver.0),
        final(k)@.stalled[receiver.0] == WaitResource::ChannelData(old(r)@.id),
        !final(k)@.ready.contains(receiver),
        final(m)@.ready.contains(receiver),
        !final(m)@.stalled.dom().contains(receiver.0),
{
    lemma_without_lane(old(k)@.ready, receiver);
    let ready = old(m)@.ready;
    assert(ready.push(receiver)[ready.len() as int] == receiver);
}

/// The other half of [`waiting_lanes_are_served`].
pub proof fn waiting_senders_are_served(
    s: &mut Channel,
    sender: LaneId,
    msg: &[u8],
    k: &mut Scheduler,
    full: SendStep,
    r: &mut Channel,
    receiver: LaneId,
    m: &mut Scheduler,
    step: RecvStep,
)
    requires
        old(k).wf(),
        call_ensures(Channel::try_send::<Scheduler>, (s, sender, msg, k), full),
        full is Full,
        *old(r) == *final(s),
        *old(m) == *final(k),
        call_ensures(Channel::try_recv::<Scheduler>, (r, receiver, m), step),
        step is Message,
    ensures
        final(k)@.stalled.dom().contains(sender.0),
        final(k)@.stalled[sender.0] == WaitResource::ChannelBuffer(old(s)@.id),
        !final(k)@.ready.contains(sender),
        final(m)@.ready.contains(sender),
        !final(m)@.stalled.dom().contains(sender.0),
{
    lemma_without_lane(old(k)@.ready, sender);
    let ready = old(m)@.ready;
    assert(ready.push(sender)[ready.len() as int] == sender);
}

/// Closing a channel keeps what it holds, lets nothing more in, and leaves no lane waiting
/// on it.
pub proof fn closing_keeps_what_is_there<K: KernelInterface>(c: &mut Channel, kernel: &mut K)
    requires
        call_ensures(Channel::close::<K>, (c, kernel), ()),
    ensures
        final(c)@.closed,
        final(c)@.messages == old(c)@.messages,
        final(c)@.receiver_waiter is None && final(c)@.sender_waiter is None,
        final(c)@.id == old(c)@.id && final(c)@.capacity == old(c)@.capacity,
{
}

/// What polling a send or a receive says: done where the message went over, pending where
/// the lane has to wait, and the error that stands in the way.
pub proof fn polls_say_how_it_went<K: KernelInterface>(
    s: ChannelSend,
    c: &mut Channel,
    k: &mut K,
    sent: Progress<Result<(), ProtocolError>>,
    r: ChannelRecv,
    d: &mut Channel,
    l: &mut K,
    got: Progress<Result<Vec<u8>, ProtocolError>>,
)
    requires
        call_ensures(ChannelSend::poll::<K>, (&s, c, k), sent),
        call_ensures(ChannelRecv::poll::<K>, (&r, d, l), got),
        old(c)@.bounded(),
        old(c)@.max_message_bytes <= usize::MAX,
        s.payload@.len() <= usize::MAX,
    ensures
        ({
            let fits = s.payload@.len() <= old(c)@.max_message_bytes;
            let room = old(c)@.messages.len() < old(c)@.capacity;
            &&& sent is Pending <==> !old(c)@.closed && fits && !room
            &&& sent == Progress::Ready(Ok::<(), ProtocolError>(())) <==> !old(c)@.closed && fits
                && room
            &&& sent == Progress::Ready(Err::<(), ProtocolError>(ProtocolError::ChannelClosed))
                <==> old(c)@.closed
            &&& !old(c)@.closed && !fits ==> (sent matches Progress::Ready(
                Err(ProtocolError::MessageTooLarge { size, maximum }),
            ) && size == s.payload@.len() && maximum == old(c)@.max_message_bytes)
        }),
        got is Pending <==> old(d)@.messages.len() == 0 && !old(d)@.closed,
        old(d)@.messages.len() > 0 ==> (got matches Progress::Ready(Ok(m)) && m@
            == old(d)@.messages[0]),
        old(d)@.messages.len() == 0 && old(d)@.closed ==> (got matches Progress::Ready(
            Err(ProtocolError::ChannelClosed),
        )),
{
}

/// What the registry shows of requests: a boundary sees the oldest request that is addressed
/// to it, with who made it and on what terms, and no request that is addressed to another;
/// one that was just made is pending, and one that was rejected by its target is not.
pub proof fn requests_are_seen_by_their_target(
    reg: &mut ChannelRegistry,
    mid: ChannelRegistry,
    from: BoundaryId,
    request: &ChannelRequest,
    id: u64,
    pending: bool,
    seen: Option<(u64, BoundaryId, ChannelTerms)>,
    who: BoundaryId,
    j: &mut ChannelRegistry,
    end: ChannelRegistry,
    rejected: bool,
    after: bool,
)
    requires
        old(reg).wf(),
        old(reg)@.next_request < u64::MAX,
        mid == *final(reg),
        mid.wf(),
        call_ensures(ChannelRegistry::request, (reg, from, request), id),
        call_ensures(ChannelRegistry::is_pending, (&mid, id), pending),
        call_ensures(ChannelRegistry::poll, (&mid, request.target), seen),
        *old(j) == mid,
        end == *final(j),
        call_ensures(ChannelRegistry::reject, (j, id, who), rejected),
        call_ensures(ChannelRegistry::is_pending, (&end, id), after),
    ensures
        pending,
        rejected <==> who == request.target,
        after <==> !rejected,
        seen is Some,
        seen matches Some((i, f, t)) ==> i <= id && mid@.pending[i].target == request.target && (i
            == id ==> f == from && t@ == request.terms@),
{
    assert(mid@.pending.dom().contains(id));
    assert(mid@.pending[id].target == request.target);
    assert(mid@.any_for(request.target));
}

/// Requests are seen in the order in which they were made. One that a boundary sees stays
/// what it sees when another comes in, be that for it or for another boundary; only where it
/// saw none does it see the new one, and only if that is addressed to it.
pub proof fn earlier_request_is_seen_first(
    reg: &mut ChannelRegistry,
    mid: ChannelRegistry,
    from: BoundaryId,
    request: &ChannelRequest,
    id: u64,
    who: BoundaryId,
    before: Option<(u64, BoundaryId, ChannelTerms)>,
    seen: Option<(u64, BoundaryId, ChannelTerms)>,
)
    requires
        old(reg).wf(),
        old(reg)@.next_request < u64::MAX,
        mid == *final(reg),
        mid.wf(),
        call_ensures(ChannelRegistry::poll, (&*old(reg), who), before),
        call_ensures(ChannelRegistry::request, (reg, from, request), id),
        call_ensures(ChannelRegistry::poll, (&mid, who), seen),
    ensures
        before matches Some((i, f, t)) ==> (seen matches Some((j, g, u)) && j == i && g == f && u@
            == t@),
        before is None && who == request.target ==> (seen matches Some((j, g, u)) && j == id && g
            == from && u@ == request.terms@),
        before is None && who != request.target ==> seen is None,
{
    let s = old(reg)@;
    let m = mid@;
    assert(m.pending.dom().contains(id));
    assert forall|k: u64| k != id implies m.pending.dom().contains(k) == s.pending.dom().contains(k)
        by {}
    if let Some((i, f, t)) = before {
        assert(s.pending.dom().contains(i));
        assert(m.pending.dom().contains(i));
        assert(m.any_for(who));
    } else if who == request.target {
        assert(m.any_for(who));
    }
    if let Some((j, g, u)) = seen {
        assert(m.pending.dom().contains(j));
        if j != id {
            assert(s.pending.dom().contains(j));
            assert(s.any_for(who));
        }
    }
}

} // verus!
