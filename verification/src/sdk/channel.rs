//! Typed channels.
//!
//! A [`Channel`] carries messages of one type by value, with no serialization: the
//! payloads live in a queue, and a kernel channel of one-byte tokens supplies the
//! back-pressure and the wake-ups (so a full buffer stalls the sender and an empty
//! one stalls the receiver). A token and its payload move in lock-step: there are as
//! many tokens as payloads, so a receiver that observes a token always finds its
//! message.
//!
//! A cross-container channel connects two containers: a requester starts a
//! [`Channel::request`], a lane of the target awaits it and accepts, and the
//! handshake goes through the broker. Each side counts the channel against its own
//! container -- outbound for the requester, inbound for the accepter.
use std::collections::VecDeque;
use vstd::prelude::*;
use vstd::utf8::{encode_utf8, is_ascii_chars_encode_utf8};
use crate::abi::ids::{BoundaryId, ChannelId, LaneId};
use crate::abi::sched::KernelInterface;
use crate::abi::terms::{ChannelDirection, ChannelTerms};
use crate::kernel::channel::{
    kernel_did, release_of, Chan, Channel as KernelChannel, KernelCall, Progress, Received,
    RecvStep, SendStep,
};
use crate::kernel::scheduler::Scheduler;
use crate::sdk::broker::{
    answer_of, kernel_did_all, lemma_kernel_did_one_more, Brokerage, ChannelBroker, PendingRequest,
};
use crate::sdk::system::{one_less, Contained, IdSource, NextIds, System};

verus! {

/// Which container's accounting a channel endpoint belongs to.
#[derive(Debug, Clone, Copy, PartialEq, Eq, Structural)]
pub enum ChannelRole {
    /// An intra-container channel.
    Local,
    /// The requesting side of a cross-container channel.
    Outbound,
    /// The accepting side of a cross-container channel.
    Inbound,
}

/// One side's count of a channel: it is released exactly once, when the channel is
/// closed or when this side's last handle is gone. Each side of a cross-container
/// channel has its own.
#[derive(Debug, PartialEq, Eq)]
pub struct Side {
    role: ChannelRole,
    released: bool,
}

/// A side as a mathematical value.
pub ghost struct Counted {
    pub role: ChannelRole,
    pub released: bool,
}

impl View for Side {
    type V = Counted;

    closed spec fn view(&self) -> Counted {
        Counted { role: self.role, released: self.released }
    }
}

/// One channel of `role` more.
pub open spec fn channel_opened(s: Contained, role: ChannelRole) -> Contained {
    match role {
        ChannelRole::Local => Contained { local_channels: (s.local_channels + 1) as u32, ..s },
        ChannelRole::Outbound => Contained {
            outbound_channels: (s.outbound_channels + 1) as u32,
            ..s
        },
        ChannelRole::Inbound => Contained {
            inbound_channels: (s.inbound_channels + 1) as u32,
            ..s
        },
    }
}

/// One channel of `role` less.
pub open spec fn channel_closed(s: Contained, role: ChannelRole) -> Contained {
    match role {
        ChannelRole::Local => Contained { local_channels: one_less(s.local_channels), ..s },
        ChannelRole::Outbound => Contained {
            outbound_channels: one_less(s.outbound_channels),
            ..s
        },
        ChannelRole::Inbound => Contained { inbound_channels: one_less(s.inbound_channels), ..s },
    }
}

/// The container after `side` is released: counted down, unless it was already.
pub open spec fn side_released(s: Contained, side: Counted) -> Contained {
    if side.released {
        s
    } else {
        channel_closed(s, side.role)
    }
}

impl Side {
    /// Release this side's count.
    pub fn release(&mut self, system: &mut System)
        requires
            old(system).wf(),
        ensures
            final(system).wf(),
            final(self)@ == (Counted { released: true, ..old(self)@ }),
            final(system)@ == side_released(old(system)@, old(self)@),
    {
        if !self.released {
            self.released = true;
            match self.role {
                ChannelRole::Local => system.note_local_channel_closed(),
                ChannelRole::Outbound => system.note_outbound_channel_closed(),
                ChannelRole::Inbound => system.note_inbound_channel_closed(),
            }
        }
    }
}

/// The largest buffer a channel may request.
pub const MAX_LOCAL_BUFFER: usize = 65536;

/// Errors from channel operations.
#[derive(Debug, Clone, Copy, PartialEq, Eq, Structural)]
pub enum ChannelError {
    /// The target container does not exist.
    TargetNotFound,
    /// The target container rejected the request.
    TargetRejected,
    /// The target did not accept within the timeout.
    TargetTimeout,
    /// The proposed terms exceed system policy.
    TermsViolation,
    /// This container is not authorized to channel the target.
    Unauthorized,
    /// The channel has been closed.
    ChannelClosed,
    /// A message exceeded the channel's maximum message size.
    MessageTooLarge,
    /// The requested buffer capacity was outside the valid range.
    BufferCapacityInvalid,
    /// The container is shutting down.
    ContainerExiting,
}

/// Error from [`Channel::try_send`]; the message is returned to the caller.
#[derive(Debug)]
pub enum TrySendError<T> {
    /// The buffer is full. The message is returned.
    Full(T),
    /// The channel is closed. The message is returned.
    Closed(T),
}

/// Error from [`Channel::try_receive`].
#[derive(Debug, Clone, Copy, PartialEq, Eq, Structural)]
pub enum TryReceiveError {
    /// No message is currently available.
    Empty,
    /// The channel is closed and drained.
    Closed,
}

/// How far a send has come.
#[derive(Debug)]
pub enum SendProgress<T> {
    /// The buffer is full; the message is to be tried again once the lane is
    /// released.
    Stalled(T),
    /// The message is in the buffer, or it was refused.
    Done(Result<(), ChannelError>),
}

/// The state of a typed channel.
pub ghost struct Conn<T> {
    pub queue: Seq<T>,
    pub signal: Chan,
}

impl<T> Conn<T> {
    /// Open and empty, with a buffer of `capacity` messages.
    pub open spec fn fresh(id: ChannelId, capacity: nat) -> Conn<T> {
        Conn {
            queue: Seq::empty(),
            signal: Chan {
                id,
                capacity,
                max_message_bytes: 1,
                messages: Seq::empty(),
                receiver_waiter: None,
                sender_waiter: None,
                closed: false,
            },
        }
    }

    /// As many tokens as payloads, within the buffer.
    pub open spec fn in_step(self) -> bool {
        &&& self.queue.len() == self.signal.messages.len()
        &&& self.signal.bounded()
        &&& self.signal.max_message_bytes == 1
        &&& 1 <= self.signal.capacity <= 65536
    }

    /// A send: what becomes of the channel, what the kernel channel answers, and
    /// what it asks of the kernel.
    pub open spec fn send(self, message: T, lane: LaneId) -> (Conn<T>, SendStep, KernelCall) {
        let (signal, step, call) = self.signal.send(lane, seq![1u8]);
        (
            Conn {
                queue: if step is Sent {
                    self.queue.push(message)
                } else {
                    self.queue
                },
                signal,
            },
            step,
            call,
        )
    }

    /// A receive: what becomes of the channel, what the kernel channel answers, and
    /// what it asks of the kernel.
    pub open spec fn receive(self, lane: LaneId) -> (Conn<T>, Received, KernelCall) {
        let (signal, got, call) = self.signal.recv(lane);
        (
            Conn {
                queue: if got is Message {
                    self.queue.drop_first()
                } else {
                    self.queue
                },
                signal,
            },
            got,
            call,
        )
    }
}

/// A typed message channel, which all its handles share.
pub struct Channel<T> {
    queue: VecDeque<T>,
    signal: KernelChannel,
    capacity: usize,
}

impl<T> View for Channel<T> {
    type V = Conn<T>;

    closed spec fn view(&self) -> Conn<T> {
        Conn { queue: self.queue@, signal: self.signal@ }
    }
}

impl<T> Channel<T> {
    /// Tokens and payloads are in step, and the capacity is that of the buffer.
    pub closed spec fn wf(&self) -> bool {
        self@.in_step() && self.capacity == self@.signal.capacity
    }

    /// Create a local (intra-container) channel with a buffer of `buffer_capacity`
    /// messages, and this container's count of it. Either end may send or receive.
    pub fn new_local(
        buffer_capacity: usize,
        system: &mut System,
        ids: &mut IdSource,
    ) -> (r: Result<(Channel<T>, Side), ChannelError>)
        requires
            old(system).wf(),
            old(ids)@.channel < u64::MAX,
        ensures
            final(system).wf(),
            local_outcome(
                buffer_capacity,
                old(system)@,
                old(ids)@,
                r,
                final(system)@,
                final(ids)@,
            ),
    {
        if buffer_capacity == 0 || buffer_capacity > MAX_LOCAL_BUFFER {
            return Err(ChannelError::BufferCapacityInvalid);
        }
        if system.local_channel_count() >= system.resource_limits().max_channels {
            return Err(ChannelError::TermsViolation);
        }
        proof {
            reveal_strlit("local");
            is_ascii_chars_encode_utf8("local"@);
        }
        let terms: ChannelTerms = match ChannelTerms::new(
            "local",
            ChannelDirection::Bidirectional,
            1,
            buffer_capacity as u32,
        ) {
            Ok(terms) => terms,
            Err(_) => return Err(ChannelError::TermsViolation),
        };
        let signal: KernelChannel = system.open_channel(&terms, ids);
        system.note_local_channel_open();
        let c: Channel<T> = Channel { queue: VecDeque::new(), signal, capacity: buffer_capacity };
        assert(c@.queue =~= Seq::<T>::empty());
        Ok((c, Side { role: ChannelRole::Local, released: false }))
    }

    /// Request a channel to another container, on behalf of `lane`, for messages of
    /// the type that `message_type` stands for. The request goes to the target's
    /// mailbox; the target's decision is then awaited by polling the
    /// [`PendingAnswer`].
    pub fn request<K: KernelInterface>(
        request: &ChannelRequest,
        message_type: u64,
        lane: LaneId,
        system: &mut System,
        ids: &mut IdSource,
        broker: &mut ChannelBroker,
        kernel: &mut K,
    ) -> (r: Result<(Channel<T>, Side, PendingAnswer), ChannelError>)
        requires
            old(system).wf(),
            old(broker).wf(),
            old(kernel).sound(),
            old(ids)@.channel < u64::MAX - 1,
        ensures
            final(system).wf(),
            final(broker).wf(),
            final(kernel).sound(),
            match request_refused(*request, old(system)@) {
                Some(e) => {
                    &&& r == Err::<(Channel<T>, Side, PendingAnswer), ChannelError>(e)
                    &&& final(system)@ == old(system)@
                    &&& final(ids)@ == old(ids)@
                    &&& final(broker)@ == old(broker)@
                    &&& *final(kernel) == *old(kernel)
                },
                None => {
                    let data = ChannelId(old(ids)@.channel);
                    let accept = ChannelId((old(ids)@.channel + 1) as u64);
                    let (after, call) = old(broker)@.submitted(
                        request.target,
                        PendingRequest {
                            source: old(system)@.boundary,
                            purpose: request.purpose,
                            connection: data,
                            message_type,
                            capacity: request.buffer_capacity,
                            accept_signal: accept,
                        },
                        fresh_signal(accept),
                        lane,
                    );
                    &&& r matches Ok((c, side, waiting)) && c.wf() && c@ == Conn::<T>::fresh(
                        data,
                        request.buffer_capacity as nat,
                    ) && side@ == (Counted { role: ChannelRole::Outbound, released: false })
                        && waiting == (PendingAnswer { accept_signal: accept })
                    &&& final(system)@ == channel_opened(old(system)@, ChannelRole::Outbound)
                    &&& final(ids)@ == old(ids)@.channel_minted().channel_minted()
                    &&& final(broker)@ == after
                    &&& kernel_did(*old(kernel), call, *final(kernel))
                },
            },
    {
        if request.buffer_capacity == 0 || request.buffer_capacity > MAX_LOCAL_BUFFER {
            return Err(ChannelError::BufferCapacityInvalid);
        }
        if system.outbound_channel_count() >= system.resource_limits().max_channels {
            return Err(ChannelError::TermsViolation);
        }
        let data_terms: ChannelTerms = match ChannelTerms::new(
            request.purpose,
            ChannelDirection::Bidirectional,
            1,
            request.buffer_capacity as u32,
        ) {
            Ok(terms) => terms,
            Err(_) => return Err(ChannelError::TermsViolation),
        };
        proof {
            reveal_strlit("xc-accept");
            is_ascii_chars_encode_utf8("xc-accept"@);
        }
        let accept_terms: ChannelTerms = match ChannelTerms::new(
            "xc-accept",
            ChannelDirection::Bidirectional,
            1,
            1,
        ) {
            Ok(terms) => terms,
            Err(_) => return Err(ChannelError::TermsViolation),
        };
        let signal: KernelChannel = system.open_channel(&data_terms, ids);
        let accept_signal: KernelChannel = system.open_channel(&accept_terms, ids);
        system.note_outbound_channel_open();
        let accept: ChannelId = accept_signal.id();
        let pending = PendingRequest {
            source: system.boundary(),
            purpose: request.purpose,
            connection: signal.id(),
            message_type,
            capacity: request.buffer_capacity,
            accept_signal: accept,
        };
        broker.submit(request.target, pending, accept_signal, lane, kernel);
        let c: Channel<T> = Channel {
            queue: VecDeque::new(),
            signal,
            capacity: request.buffer_capacity,
        };
        assert(c@.queue =~= Seq::<T>::empty());
        Ok(
            (
                c,
                Side { role: ChannelRole::Outbound, released: false },
                PendingAnswer { accept_signal: accept },
            ),
        )
    }

    /// The id of the connection, that of its token channel.
    pub fn id(&self) -> (id: ChannelId)
        ensures
            id == self@.signal.id,
    {
        self.signal.id()
    }

    /// The buffer capacity this channel was created with.
    pub fn capacity(&self) -> (n: usize)
        requires
            self.wf(),
        ensures
            n == self@.signal.capacity,
    {
        self.capacity
    }

    /// Send a message on behalf of `lane`. Stalls (back-pressure) if the buffer is
    /// full.
    pub fn send<K: KernelInterface>(&mut self, message: T, lane: LaneId, kernel: &mut K) -> (r:
        SendProgress<T>)
        requires
            old(self).wf(),
            old(kernel).sound(),
        ensures
            final(self).wf(),
            final(kernel).sound(),
            ({
                let (after, step, call) = old(self)@.send(message, lane);
                &&& final(self)@ == after
                &&& kernel_did(*old(kernel), call, *final(kernel))
                &&& r == match step {
                    SendStep::Sent => SendProgress::Done(Ok(())),
                    SendStep::Full => SendProgress::Stalled(message),
                    SendStep::Closed => SendProgress::Done(Err(ChannelError::ChannelClosed)),
                    SendStep::TooLarge => SendProgress::Done(Err(ChannelError::MessageTooLarge)),
                }
            }),
    {
        match self.reserve(lane, kernel) {
            SendStep::Sent => {
                self.queue.push_back(message);
                SendProgress::Done(Ok(()))
            },
            SendStep::Full => SendProgress::Stalled(message),
            SendStep::Closed => SendProgress::Done(Err(ChannelError::ChannelClosed)),
            SendStep::TooLarge => SendProgress::Done(Err(ChannelError::MessageTooLarge)),
        }
    }

    /// Send a token.
    fn reserve<K: KernelInterface>(&mut self, lane: LaneId, kernel: &mut K) -> (step: SendStep)
        requires
            old(self).wf(),
            old(kernel).sound(),
        ensures
            final(kernel).sound(),
            final(self).queue == old(self).queue,
            final(self).capacity == old(self).capacity,
            final(self)@.signal.bounded(),
            ({
                let (after, want, call) = old(self)@.signal.send(lane, seq![1u8]);
                &&& final(self)@.signal == after
                &&& step == want
                &&& kernel_did(*old(kernel), call, *final(kernel))
            }),
    {
        let token: [u8; 1] = [1];
        assert(token@ =~= seq![1u8]);
        self.signal.try_send(lane, &token, kernel)
    }

    /// Receive a message on behalf of `lane`. Stalls if the buffer is empty. `None`
    /// once the channel is closed and drained.
    pub fn receive<K: KernelInterface>(&mut self, lane: LaneId, kernel: &mut K) -> (r: Progress<
        Option<T>,
    >)
        requires
            old(self).wf(),
            old(kernel).sound(),
        ensures
            final(self).wf(),
            final(kernel).sound(),
            ({
                let (after, got, call) = old(self)@.receive(lane);
                &&& final(self)@ == after
                &&& kernel_did(*old(kernel), call, *final(kernel))
                &&& r == match got {
                    Received::Message(_) => Progress::Ready(Some(old(self)@.queue[0])),
                    Received::Empty => Progress::Pending,
                    Received::Closed => Progress::Ready(None),
                }
            }),
    {
        match self.signal.try_recv(lane, kernel) {
            RecvStep::Message(_token) => {
                let m: Option<T> = self.queue.pop_front();
                assert(self@.queue =~= old(self)@.queue.drop_first());
                Progress::Ready(m)
            },
            RecvStep::Empty => Progress::Pending,
            RecvStep::Closed => Progress::Ready(None),
        }
    }

    /// Non-blocking send. Returns the message on failure.
    pub fn try_send<K: KernelInterface>(&mut self, message: T, lane: LaneId, kernel: &mut K) -> (r:
        Result<(), TrySendError<T>>)
        requires
            old(self).wf(),
            old(kernel).sound(),
        ensures
            final(self).wf(),
            final(kernel).sound(),
            ({
                let (after, step, call) = old(self)@.send(message, lane);
                &&& final(self)@ == after
                &&& kernel_did(*old(kernel), call, *final(kernel))
                &&& r == match step {
                    SendStep::Sent => Ok::<(), TrySendError<T>>(()),
                    SendStep::Full => Err(TrySendError::Full(message)),
                    SendStep::Closed | SendStep::TooLarge => Err(TrySendError::Closed(message)),
                }
            }),
    {
        match self.reserve(lane, kernel) {
            SendStep::Sent => {
                self.queue.push_back(message);
                Ok(())
            },
            SendStep::Full => Err(TrySendError::Full(message)),
            SendStep::Closed | SendStep::TooLarge => Err(TrySendError::Closed(message)),
        }
    }

    /// Non-blocking receive.
    pub fn try_receive<K: KernelInterface>(&mut self, lane: LaneId, kernel: &mut K) -> (r: Result<
        T,
        TryReceiveError,
    >)
        requires
            old(self).wf(),
            old(kernel).sound(),
        ensures
            final(self).wf(),
            final(kernel).sound(),
            ({
                let (after, got, call) = old(self)@.receive(lane);
                &&& final(self)@ == after
                &&& kernel_did(*old(kernel), call, *final(kernel))
                &&& r == match got {
                    Received::Message(_) => Ok::<T, TryReceiveError>(old(self)@.queue[0]),
                    Received::Empty => Err(TryReceiveError::Empty),
                    Received::Closed => Err(TryReceiveError::Closed),
                }
            }),
    {
        match self.receive(lane, kernel) {
            Progress::Ready(Some(m)) => Ok(m),
            Progress::Ready(None) => Err(TryReceiveError::Closed),
            Progress::Pending => Err(TryReceiveError::Empty),
        }
    }

    /// Close the channel from one side. Buffered messages remain available to
    /// receivers; once drained, `receive` gives `None`.
    pub fn close<K: KernelInterface>(
        &mut self,
        side: &mut Side,
        system: &mut System,
        kernel: &mut K,
    )
        requires
            old(self).wf(),
            old(system).wf(),
            old(kernel).sound(),
        ensures
            final(self).wf(),
            final(system).wf(),
            final(kernel).sound(),
            final(self)@ == (Conn { signal: old(self)@.signal.shut(), ..old(self)@ }),
            final(side)@ == (Counted { released: true, ..old(side)@ }),
            final(system)@ == side_released(old(system)@, old(side)@),
            kernel_did_all(
                *old(kernel),
                seq![
                    release_of(old(self)@.signal.receiver_waiter),
                    release_of(old(self)@.signal.sender_waiter),
                ],
                *final(kernel),
            ),
    {
        self.signal.close(kernel);
        side.release(system);
        proof {
            let s = old(self)@.signal;
            let first = release_of(s.receiver_waiter);
            let second = release_of(s.sender_waiter);
            let between = choose|between: K|
                #![trigger kernel_did(*old(kernel), first, between)]
                kernel_did(*old(kernel), first, between) && kernel_did(between, second, *kernel);
            let none = Seq::<KernelCall>::empty();
            lemma_kernel_did_one_more(*old(kernel), none, *old(kernel), first, between);
            lemma_kernel_did_one_more(*old(kernel), none.push(first), between, second, *kernel);
            assert(none.push(first).push(second) =~= seq![first, second]);
        }
    }
}

/// What opening a local channel gives and leaves.
pub open spec fn local_outcome<T>(
    buffer_capacity: usize,
    before: Contained,
    ids: NextIds,
    r: Result<(Channel<T>, Side), ChannelError>,
    after: Contained,
    ids_after: NextIds,
) -> bool {
    if buffer_capacity == 0 || buffer_capacity > 65536 {
        &&& r == Err::<(Channel<T>, Side), ChannelError>(ChannelError::BufferCapacityInvalid)
        &&& after == before
        &&& ids_after == ids
    } else if before.local_channels >= before.limits.max_channels {
        &&& r == Err::<(Channel<T>, Side), ChannelError>(ChannelError::TermsViolation)
        &&& after == before
        &&& ids_after == ids
    } else {
        &&& r matches Ok((c, side)) && c.wf() && c@ == Conn::<T>::fresh(
            ChannelId(ids.channel),
            buffer_capacity as nat,
        ) && side@ == (Counted { role: ChannelRole::Local, released: false })
        &&& after == channel_opened(before, ChannelRole::Local)
        &&& ids_after == ids.channel_minted()
    }
}

/// A request to open a channel to another container.
#[derive(Debug, Clone, Copy)]
pub struct ChannelRequest {
    /// The target container.
    pub target: BoundaryId,
    /// An informational purpose label for the channel, of at most 32 bytes.
    pub purpose: &'static str,
    /// The buffer capacity to negotiate (`1..=65536`).
    pub buffer_capacity: usize,
}

/// Why a request is refused before it is sent, if it is.
pub open spec fn request_refused(request: ChannelRequest, s: Contained) -> Option<ChannelError> {
    let name = encode_utf8(request.purpose@);
    if request.buffer_capacity == 0 || request.buffer_capacity > 65536 {
        Some(ChannelError::BufferCapacityInvalid)
    } else if s.outbound_channels >= s.limits.max_channels {
        Some(ChannelError::TermsViolation)
    } else if name.len() == 0 || name.len() > 32 {
        Some(ChannelError::TermsViolation)
    } else {
        None
    }
}

/// An accept signal as it is made: room for one mark.
pub open spec fn fresh_signal(id: ChannelId) -> Chan {
    Chan {
        id,
        capacity: 1,
        max_message_bytes: 1,
        messages: Seq::empty(),
        receiver_waiter: None,
        sender_waiter: None,
        closed: false,
    }
}

/// A request that was sent, until its answer comes.
#[derive(Debug, Clone, Copy, PartialEq, Eq, Structural)]
pub struct PendingAnswer {
    /// Where the answer comes.
    pub accept_signal: ChannelId,
}

/// What an answer means to the requester.
pub open spec fn verdict(p: Progress<Option<bool>>) -> Progress<Result<(), ChannelError>> {
    match p {
        Progress::Pending => Progress::Pending,
        Progress::Ready(Some(true)) => Progress::Ready(Ok(())),
        Progress::Ready(Some(false)) => Progress::Ready(Err(ChannelError::TargetRejected)),
        Progress::Ready(None) => Progress::Ready(Err(ChannelError::TargetNotFound)),
    }
}

impl PendingAnswer {
    /// Whether the target's decision has come, on behalf of `lane`. Unless it is a
    /// yes, the requester's side of the channel is released.
    pub fn poll<K: KernelInterface>(
        &self,
        lane: LaneId,
        side: &mut Side,
        system: &mut System,
        broker: &mut ChannelBroker,
        kernel: &mut K,
    ) -> (p: Progress<Result<(), ChannelError>>)
        requires
            old(system).wf(),
            old(broker).wf(),
            old(kernel).sound(),
        ensures
            final(system).wf(),
            final(broker).wf(),
            final(kernel).sound(),
            ({
                let known = old(broker)@.awaits(self.accept_signal);
                let (told, got, call) = old(broker)@.signals[self.accept_signal.0].recv(lane);
                let want = if known {
                    verdict(answer_of(got))
                } else {
                    verdict(Progress::Ready(None))
                };
                &&& p == want
                &&& kernel_did(
                    *old(kernel),
                    if known {
                        call
                    } else {
                        KernelCall::Nothing
                    },
                    *final(kernel),
                )
                &&& final(broker)@ == if !known {
                    old(broker)@
                } else {
                    Brokerage {
                        signals: if got is Empty {
                            old(broker)@.signals.insert(self.accept_signal.0, told)
                        } else {
                            old(broker)@.signals.remove(self.accept_signal.0)
                        },
                        ..old(broker)@
                    }
                }
                &&& if want matches Progress::Ready(Err(_)) {
                    &&& final(side)@ == (Counted { released: true, ..old(side)@ })
                    &&& final(system)@ == side_released(old(system)@, old(side)@)
                } else {
                    final(side)@ == old(side)@ && final(system)@ == old(system)@
                }
            }),
    {
        match broker.poll_answer(self.accept_signal, lane, kernel) {
            Progress::Pending => Progress::Pending,
            Progress::Ready(Some(true)) => Progress::Ready(Ok(())),
            Progress::Ready(Some(false)) => {
                side.release(system);
                Progress::Ready(Err(ChannelError::TargetRejected))
            },
            Progress::Ready(None) => {
                side.release(system);
                Progress::Ready(Err(ChannelError::TargetNotFound))
            },
        }
    }
}

/// An incoming cross-container channel request. Accept it to join the connection, or
/// reject it.
#[derive(Debug, PartialEq, Eq)]
pub struct IncomingRequest {
    source: BoundaryId,
    purpose: &'static str,
    connection: ChannelId,
    capacity: usize,
    accept_signal: ChannelId,
}

/// An incoming request as a mathematical value.
pub ghost struct Incoming {
    pub source: BoundaryId,
    pub purpose: &'static str,
    pub connection: ChannelId,
    pub capacity: usize,
    pub accept_signal: ChannelId,
}

/// What the target sees of a request.
pub open spec fn incoming_of(p: PendingRequest) -> Incoming {
    Incoming {
        source: p.source,
        purpose: p.purpose,
        connection: p.connection,
        capacity: p.capacity,
        accept_signal: p.accept_signal,
    }
}

impl View for IncomingRequest {
    type V = Incoming;

    closed spec fn view(&self) -> Incoming {
        Incoming {
            source: self.source,
            purpose: self.purpose,
            connection: self.connection,
            capacity: self.capacity,
            accept_signal: self.accept_signal,
        }
    }
}

impl IncomingRequest {
    /// The container that made the request.
    pub fn source(&self) -> (b: BoundaryId)
        ensures
            b == self@.source,
    {
        self.source
    }

    /// The request's informational purpose label.
    pub fn purpose(&self) -> (p: &'static str)
        ensures
            p == self@.purpose,
    {
        self.purpose
    }

    /// The connection that the request is for.
    pub fn connection(&self) -> (c: ChannelId)
        ensures
            c == self@.connection,
    {
        self.connection
    }

    /// The buffer capacity of that connection.
    pub fn capacity(&self) -> (n: usize)
        ensures
            n == self@.capacity,
    {
        self.capacity
    }

    /// Accept the request on behalf of `lane`, waking the requester; this side's
    /// count of the connection.
    pub fn accept<K: KernelInterface>(
        self,
        lane: LaneId,
        system: &mut System,
        broker: &mut ChannelBroker,
        kernel: &mut K,
    ) -> (side: Side)
        requires
            old(system).wf(),
            old(system)@.inbound_channels < u32::MAX,
            old(broker).wf(),
            old(kernel).sound(),
        ensures
            final(system).wf(),
            final(broker).wf(),
            final(kernel).sound(),
            side@ == (Counted { role: ChannelRole::Inbound, released: false }),
            final(system)@ == channel_opened(old(system)@, ChannelRole::Inbound),
            ({
                let (after, call) = old(broker)@.answered(self@.accept_signal, true, lane);
                final(broker)@ == after && kernel_did(*old(kernel), call, *final(kernel))
            }),
    {
        system.note_inbound_channel_open();
        broker.answer(self.accept_signal, true, lane, kernel);
        Side { role: ChannelRole::Inbound, released: false }
    }

    /// Reject the request on behalf of `lane`, waking the requester. A request that
    /// is given up without a decision is rejected too, so that the requester does
    /// not wait forever.
    pub fn reject<K: KernelInterface>(
        self,
        lane: LaneId,
        broker: &mut ChannelBroker,
        kernel: &mut K,
    )
        requires
            old(broker).wf(),
            old(kernel).sound(),
        ensures
            final(broker).wf(),
            final(kernel).sound(),
            ({
                let (after, call) = old(broker)@.answered(self@.accept_signal, false, lane);
                final(broker)@ == after && kernel_did(*old(kernel), call, *final(kernel))
            }),
    {
        broker.answer(self.accept_signal, false, lane, kernel);
    }
}

/// A wait for an incoming request. While `waiting`, the mailbox was found empty and
/// the doorbell is listened to.
#[derive(Debug, Clone, Copy, PartialEq, Eq, Structural)]
pub struct AwaitRequest {
    /// Whether the wait is on the doorbell.
    pub waiting: bool,
}

/// How a wait for a request ends or stalls.
pub ghost enum Awaited {
    /// A request was taken from the mailbox.
    Taken(PendingRequest),
    /// Nothing there: the lane is parked on the doorbell.
    Parked,
    /// The doorbell is closed.
    Gone,
}

/// What a wait does to the mailbox and the doorbell, and asks of the kernel.
pub ghost struct AwaitRun {
    pub waiting: bool,
    pub mail: Seq<PendingRequest>,
    pub bell: Chan,
    pub end: Awaited,
    pub calls: Seq<KernelCall>,
}

/// Take the oldest request; if there is none, listen to the doorbell, and look again
/// whenever it rings.
pub open spec fn await_run(
    waiting: bool,
    mail: Seq<PendingRequest>,
    bell: Chan,
    lane: LaneId,
) -> AwaitRun
    decreases bell.messages.len(),
{
    if !waiting && mail.len() > 0 {
        AwaitRun {
            waiting,
            mail: mail.drop_first(),
            bell,
            end: Awaited::Taken(mail[0]),
            calls: Seq::empty(),
        }
    } else {
        let (after, got, call) = bell.recv(lane);
        match got {
            Received::Message(_) => {
                if bell.messages.len() > 0 {
                    let rest = await_run(false, mail, after, lane);
                    AwaitRun { calls: seq![call] + rest.calls, ..rest }
                } else {
                    arbitrary()
                }
            },
            Received::Empty => AwaitRun {
                waiting: true,
                mail,
                bell: after,
                end: Awaited::Parked,
                calls: seq![call],
            },
            Received::Closed => AwaitRun {
                waiting: true,
                mail,
                bell: after,
                end: Awaited::Gone,
                calls: seq![call],
            },
        }
    }
}

/// Wait for an incoming cross-container channel request, by polling.
pub fn await_channel_request() -> (w: AwaitRequest)
    ensures
        !w.waiting,
{
    AwaitRequest { waiting: false }
}

/// A wait for a request with messages of type `message_type`, by what was taken: a
/// request for another type is lost.
pub open spec fn request_outcome(
    end: Awaited,
    message_type: u64,
    p: Progress<Result<IncomingRequest, ChannelError>>,
) -> bool {
    match end {
        Awaited::Taken(req) => if req.message_type == message_type {
            p matches Progress::Ready(Ok(r)) && r@ == incoming_of(req)
        } else {
            p == Progress::Ready(Err::<IncomingRequest, ChannelError>(ChannelError::ChannelClosed))
        },
        Awaited::Parked => p is Pending,
        Awaited::Gone => p == Progress::Ready(
            Err::<IncomingRequest, ChannelError>(ChannelError::ChannelClosed),
        ),
    }
}

/// The broker after a wait for requests to `target` ran as `run` says.
pub open spec fn awaited_broker(b: Brokerage, target: BoundaryId, run: AwaitRun) -> Brokerage {
    Brokerage {
        inbox: if run.end is Taken {
            b.inbox.insert(target.0, run.mail)
        } else {
            b.inbox
        },
        doorbells: b.doorbells.insert(target.0, run.bell),
        ..b
    }
}

impl AwaitRequest {
    /// Whether a request addressed to the container of `system` has come, on behalf
    /// of `lane`, with messages of the type that `message_type` stands for.
    pub fn poll<K: KernelInterface>(
        &mut self,
        message_type: u64,
        lane: LaneId,
        system: &System,
        ids: &mut IdSource,
        broker: &mut ChannelBroker,
        kernel: &mut K,
    ) -> (p: Progress<Result<IncomingRequest, ChannelError>>)
        requires
            old(broker).wf(),
            old(kernel).sound(),
            old(ids)@.channel < u64::MAX,
        ensures
            final(broker).wf(),
            final(kernel).sound(),
            ({
                let target = system@.boundary;
                let mail = old(broker)@.mailbox(target);
                let run = await_run(
                    old(self).waiting,
                    mail,
                    old(broker)@.doorbell_of(target, old(ids)@.channel),
                    lane,
                );
                let at_once = !old(self).waiting && mail.len() > 0;
                &&& request_outcome(run.end, message_type, p)
                &&& final(self).waiting == run.waiting
                &&& kernel_did_all(*old(kernel), run.calls, *final(kernel))
                &&& final(ids)@ == if at_once || old(broker)@.has_doorbell(target) {
                    old(ids)@
                } else {
                    old(ids)@.channel_minted()
                }
                &&& final(broker)@ == if at_once {
                    Brokerage {
                        inbox: old(broker)@.inbox.insert(target.0, mail.drop_first()),
                        ..old(broker)@
                    }
                } else {
                    awaited_broker(old(broker)@, target, run)
                }
            }),
    {
        let target: BoundaryId = system.boundary();
        let ghost b0 = broker@;
        let ghost k0 = *kernel;
        let ghost mail = b0.mailbox(target);
        let ghost bell0 = b0.doorbell_of(target, ids@.channel);
        let ghost run = await_run(self.waiting, mail, bell0, lane);
        let ghost mut did = Seq::<KernelCall>::empty();
        let ghost mut bell = bell0;
        if !self.waiting {
            if let Some(pending) = broker.take(target) {
                return Progress::Ready(typed(pending, message_type));
            }
        }
        let _bell = broker.doorbell(target, ids);
        proof {
            assert(b0.doorbells.insert(target.0, bell0).insert(target.0, bell0)
                =~= b0.doorbells.insert(target.0, bell0));
        }
        let ghost ids1 = ids@;
        self.waiting = true;
        loop
            invariant
                broker.wf(),
                kernel.sound(),
                self.waiting,
                ids@ == ids1,
                target == system@.boundary,
                b0 == old(broker)@,
                k0 == *old(kernel),
                old(self).waiting || mail.len() == 0,
                ids1 == if b0.has_doorbell(target) {
                    old(ids)@
                } else {
                    old(ids)@.channel_minted()
                },
                run == await_run(
                    old(self).waiting,
                    mail,
                    b0.doorbell_of(target, old(ids)@.channel),
                    lane,
                ),
                broker@ == (Brokerage { doorbells: b0.doorbells.insert(target.0, bell), ..b0 }),
                mail == b0.mailbox(target),
                kernel_did_all(k0, did, *kernel),
                ({
                    let rest = await_run(true, mail, bell, lane);
                    run == (AwaitRun { calls: did + rest.calls, ..rest })
                }),
            decreases bell.messages.len(),
        {
            let ghost k1 = *kernel;
            let ghost bell1 = bell;
            let ghost (after, got, call) = bell1.recv(lane);
            let ghost rest = await_run(true, mail, bell1, lane);
            let step: RecvStep = broker.doorbell(target, ids).try_recv(lane, kernel);
            proof {
                lemma_kernel_did_one_more(k0, did, k1, call, *kernel);
                assert(b0.doorbells.insert(target.0, bell1).insert(target.0, after)
                    =~= b0.doorbells.insert(target.0, after));
                bell = after;
            }
            match step {
                RecvStep::Empty => {
                    assert(did + seq![call] =~= did.push(call));
                    return Progress::Pending;
                },
                RecvStep::Closed => {
                    assert(did + seq![call] =~= did.push(call));
                    return Progress::Ready(Err(ChannelError::ChannelClosed));
                },
                RecvStep::Message(_) => {},
            }
            proof {
                let next = await_run(false, mail, after, lane);
                assert(rest.calls == seq![call] + next.calls);
                assert(did + rest.calls =~= did.push(call) + next.calls);
                did = did.push(call);
                if mail.len() > 0 {
                    assert(did + next.calls =~= did);
                } else {
                    assert(next == await_run(true, mail, after, lane));
                }
            }
            if let Some(pending) = broker.take(target) {
                self.waiting = false;
                return Progress::Ready(typed(pending, message_type));
            }
        }
    }
}

/// What the target makes of a request that it took.
fn typed(p: PendingRequest, message_type: u64) -> (r: Result<IncomingRequest, ChannelError>)
    ensures
        if p.message_type == message_type {
            r matches Ok(i) && i@ == incoming_of(p)
        } else {
            r == Err::<IncomingRequest, ChannelError>(ChannelError::ChannelClosed)
        },
{
    if p.message_type != message_type {
        return Err(ChannelError::ChannelClosed);
    }
    Ok(
        IncomingRequest {
            source: p.source,
            purpose: p.purpose,
            connection: p.connection,
            capacity: p.capacity,
            accept_signal: p.accept_signal,
        },
    )
}

/// A message sent to an empty channel is the next one received; one sent to a
/// channel that holds others comes after them.
pub proof fn typed_messages_keep_their_order<T>(
    c: Conn<T>,
    sender: LaneId,
    receiver: LaneId,
    message: T,
)
    requires
        c.in_step(),
        c.send(message, sender).1 is Sent,
    ensures
        ({
            let sent = c.send(message, sender).0;
            let (after, got, _call) = sent.receive(receiver);
            &&& sent.in_step()
            &&& got is Message
            &&& sent.queue[0] == if c.queue.len() > 0 {
                c.queue[0]
            } else {
                message
            }
            &&& sent.queue.last() == message
            &&& after.in_step()
        }),
{
}

/// A send stalls exactly while the buffer of an open channel is full, and a receive
/// frees one place in it.
pub proof fn full_buffer_stalls<T>(c: Conn<T>, sender: LaneId, receiver: LaneId, message: T)
    requires
        c.in_step(),
        !c.signal.closed,
    ensures
        c.send(message, sender).1 is Full <==> c.queue.len() == c.signal.capacity,
        c.send(message, sender).1 is Sent <==> c.queue.len() < c.signal.capacity,
        ({
            let (after, got, _call) = c.receive(receiver);
            got is Message ==> after.send(message, sender).1 is Sent
        }),
{
}

/// A closed channel gives up what it holds before it reports that it is closed, and
/// takes no more.
pub proof fn closed_typed_channel_drains<T>(c: Conn<T>, lane: LaneId, message: T)
    requires
        c.in_step(),
    ensures
        ({
            let shut = Conn { signal: c.signal.shut(), ..c };
            &&& shut.in_step()
            &&& shut.send(message, lane).1 is Closed
            &&& c.queue.len() > 0 ==> shut.receive(lane).1 is Message
            &&& c.queue.len() == 0 ==> shut.receive(lane).1 is Closed
        }),
{
}

/// A channel that was opened and released leaves its container's counts as they
/// were; releasing it once more changes nothing.
pub proof fn channel_counts_balance(s: Contained, role: ChannelRole)
    requires
        s.local_channels < u32::MAX,
        s.outbound_channels < u32::MAX,
        s.inbound_channels < u32::MAX,
    ensures
        ({
            let opened = channel_opened(s, role);
            let released = side_released(opened, Counted { role, released: false });
            &&& released == s
            &&& side_released(released, Counted { role, released: true }) == s
        }),
{
}

/// The handshake: a request that was submitted is what its target finds, and the
/// target's decision is what the requester learns.
pub proof fn handshake_connects(
    b: Brokerage,
    target: BoundaryId,
    request: PendingRequest,
    requester: LaneId,
    accepter: LaneId,
    accepted: bool,
)
    requires
        b.mailbox(target).len() == 0,
    ensures
        ({
            let sent = b.submitted(
                target,
                request,
                fresh_signal(request.accept_signal),
                requester,
            ).0;
            let taken = Brokerage {
                inbox: sent.inbox.insert(target.0, sent.mailbox(target).drop_first()),
                ..sent
            };
            let told = taken.answered(request.accept_signal, accepted, accepter).0;
            &&& sent.mailbox(target)[0] == request
            &&& verdict(
                answer_of(told.signals[request.accept_signal.0].recv(requester).1),
            ) == if accepted {
                Progress::Ready(Ok::<(), ChannelError>(()))
            } else {
                Progress::Ready(Err(ChannelError::TargetRejected))
            }
        }),
{
}

/// A requester that rings while the target listens wakes it, and the target then
/// finds the request.
pub proof fn ring_wakes_the_target(
    b: Brokerage,
    target: BoundaryId,
    request: PendingRequest,
    signal: Chan,
    requester: LaneId,
    listener: LaneId,
)
    requires
        b.has_doorbell(target),
        b.mailbox(target).len() == 0,
        b.doorbells[target.0].messages.len() == 0,
        !b.doorbells[target.0].closed,
        b.doorbells[target.0].capacity > 0,
        b.doorbells[target.0].max_message_bytes > 0,
    ensures
        ({
            let listening = await_run(
                false,
                b.mailbox(target),
                b.doorbells[target.0],
                listener,
            );
            let waiting = Brokerage {
                doorbells: b.doorbells.insert(target.0, listening.bell),
                ..b
            };
            let (sent, call) = waiting.submitted(target, request, signal, requester);
            let woken = await_run(true, sent.mailbox(target), sent.doorbells[target.0], listener);
            &&& listening.end is Parked
            &&& call == KernelCall::Release(listener)
            &&& woken.end == Awaited::Taken(request)
        }),
{
    let bell = b.doorbells[target.0];
    let listening = await_run(false, b.mailbox(target), bell, listener);
    let waiting = Brokerage { doorbells: b.doorbells.insert(target.0, listening.bell), ..b };
    let sent = waiting.submitted(target, request, signal, requester).0;
    let rung = sent.doorbells[target.0];
    assert(rung.messages.len() == 1);
    let after = rung.recv(listener).0;
    assert(sent.mailbox(target).len() == 1);
    assert(await_run(false, sent.mailbox(target), after, listener).end == Awaited::Taken(request));
}

/// A local channel can be had exactly with a buffer of 1 to 65536 messages and while the
/// container has fewer local channels than its limit allows. It then counts as one more
/// local channel, is empty, and has the capacity that was asked for and an id of its own.
pub proof fn local_channels_are_limited<T>(
    capacity: usize,
    s: &mut System,
    mid: System,
    ids: &mut IdSource,
    r: Result<(Channel<T>, Side), ChannelError>,
    before: u32,
    after: u32,
    c: Channel<T>,
    side: Side,
    n: usize,
    id: ChannelId,
)
    requires
        old(s).wf(),
        old(ids)@.channel < u64::MAX,
        mid == *final(s),
        call_ensures(Channel::<T>::new_local, (capacity, s, ids), r),
        call_ensures(System::local_channel_count, (&*old(s),), before),
        call_ensures(System::local_channel_count, (&mid,), after),
        before < u32::MAX,
        r == Ok::<(Channel<T>, Side), ChannelError>((c, side)) || r is Err,
        call_ensures(Channel::<T>::capacity, (&c,), n),
        call_ensures(Channel::<T>::id, (&c,), id),
    ensures
        r is Ok <==> 1 <= capacity && capacity <= 65536 && before < old(s)@.limits.max_channels,
        r is Ok ==> after == before + 1 && n == capacity && c@.queue.len() == 0
            && !c@.signal.closed && id.0 == old(ids)@.channel && final(ids)@.channel
            == old(ids)@.channel + 1,
        r is Err ==> after == before,
        r == Err::<(Channel<T>, Side), ChannelError>(ChannelError::BufferCapacityInvalid)
            <==> capacity == 0 || capacity > 65536,
        mid@.outbound_channels == old(s)@.outbound_channels && mid@.inbound_channels
            == old(s)@.inbound_channels && mid@.active_lanes == old(s)@.active_lanes,
{
}

/// Messages of a typed channel. One is taken exactly while the channel is open and its buffer
/// has room, and stands behind the others; else it is handed back, as full or as closed. The
/// oldest is received first, from a closed channel too; without one, a closed channel gives
/// `None` and an open one makes the lane wait. The trying forms do the same and say so.
pub proof fn typed_channel_carries_messages<T, K: KernelInterface>(
    a: &mut Channel<T>,
    message: T,
    lane: LaneId,
    k: &mut K,
    sent: SendProgress<T>,
    b: &mut Channel<T>,
    l: &mut K,
    tried: Result<(), TrySendError<T>>,
    c: &mut Channel<T>,
    m: &mut K,
    got: Progress<Option<T>>,
    d: &mut Channel<T>,
    n: &mut K,
    gotten: Result<T, TryReceiveError>,
)
    requires
        old(a)@.in_step(),
        *old(b) == *old(a) && *old(c) == *old(a) && *old(d) == *old(a),
        call_ensures(Channel::<T>::send::<K>, (a, message, lane, k), sent),
        call_ensures(Channel::<T>::try_send::<K>, (b, message, lane, l), tried),
        call_ensures(Channel::<T>::receive::<K>, (c, lane, m), got),
        call_ensures(Channel::<T>::try_receive::<K>, (d, lane, n), gotten),
    ensures
        ({
            let q = old(a)@.queue;
            let closed = old(a)@.signal.closed;
            let room = q.len() < old(a)@.signal.capacity;
            &&& !closed && room ==> sent == SendProgress::<T>::Done(Ok(())) && tried is Ok
                && final(a)@.queue == q.push(message) && final(b)@.queue == q.push(message)
            &&& !closed && !room ==> sent == SendProgress::Stalled(message) && tried == Err::<
                (),
                TrySendError<T>,
            >(TrySendError::Full(message)) && final(a)@.queue == q && final(b)@.queue == q
            &&& closed ==> sent == SendProgress::<T>::Done(Err(ChannelError::ChannelClosed))
                && tried == Err::<(), TrySendError<T>>(TrySendError::Closed(message)) && final(a)@.queue == q
            &&& q.len() > 0 ==> got == Progress::Ready(Some(q[0])) && gotten == Ok::<
                T,
                TryReceiveError,
            >(q[0]) && final(c)@.queue == q.drop_first() && final(d)@.queue == q.drop_first()
            &&& q.len() == 0 && closed ==> got == Progress::Ready(None::<T>) && gotten == Err::<
                T,
                TryReceiveError,
            >(TryReceiveError::Closed)
            &&& q.len() == 0 && !closed ==> got is Pending && gotten == Err::<T, TryReceiveError>(
                TryReceiveError::Empty,
            )
        }),
{
}

/// A request for a channel to another container is refused exactly where its buffer or its
/// label is out of bounds or the container has as many outbound channels as it may. Else it
/// counts as one more, and the container that it names, and that one only, finds it: with
/// who asked, the label and the capacity, where it waits for messages of that type.
pub proof fn request_reaches_its_target<T>(
    request: &ChannelRequest,
    message_type: u64,
    lane: LaneId,
    s: &mut System,
    ids: &mut IdSource,
    b: &mut ChannelBroker,
    k: &mut Scheduler,
    r: Result<(Channel<T>, Side, PendingAnswer), ChannelError>,
    w: &mut AwaitRequest,
    awaited_type: u64,
    listener: LaneId,
    target: &System,
    ids2: &mut IdSource,
    b2: &mut ChannelBroker,
    k2: &mut Scheduler,
    p: Progress<Result<IncomingRequest, ChannelError>>,
)
    requires
        old(s).wf(),
        old(s)@.outbound_channels < u32::MAX,
        call_ensures(
            Channel::<T>::request::<Scheduler>,
            (request, message_type, lane, s, ids, b, k),
            r,
        ),
        old(b)@.inbox == Map::<u64, Seq<PendingRequest>>::empty(),
        !old(w).waiting,
        *old(b2) == *final(b),
        call_ensures(
            AwaitRequest::poll::<Scheduler>,
            (w, awaited_type, listener, target, ids2, b2, k2),
            p,
        ),
    ensures
        ({
            let name = encode_utf8(request.purpose@).len();
            r is Ok <==> 1 <= request.buffer_capacity && request.buffer_capacity <= 65536 && 1
                <= name <= 32 && old(s)@.outbound_channels < old(s)@.limits.max_channels
        }),
        r is Ok ==> final(s)@.outbound_channels == old(s)@.outbound_channels + 1
            && final(s)@.local_channels == old(s)@.local_channels && final(s)@.inbound_channels
            == old(s)@.inbound_channels,
        r is Err ==> final(s)@ == old(s)@ && final(b)@ == old(b)@,
        r is Ok && target@.boundary == request.target && awaited_type == message_type ==> (p
            matches Progress::Ready(Ok(q)) && q@.source == old(s)@.boundary && q@.purpose
            == request.purpose && q@.capacity == request.buffer_capacity && q@.connection
            == r->Ok_0.0@.signal.id && q@.accept_signal == r->Ok_0.2.accept_signal),
        r is Ok && target@.boundary == request.target && awaited_type != message_type ==> p
            == Progress::Ready(
            Err::<IncomingRequest, ChannelError>(ChannelError::ChannelClosed),
        ),
        r is Ok && target@.boundary != request.target ==> !(p matches Progress::Ready(Ok(_))),
{
    reveal_with_fuel(await_run, 1);
    if r is Ok {
        let mail = old(b2)@.mailbox(target@.boundary);
        if target@.boundary == request.target {
            assert(mail.len() == 1);
        } else {
            assert(mail.len() == 0);
            let bell = old(b2)@.doorbell_of(target@.boundary, old(ids2)@.channel);
            lemma_await_nothing(false, mail, bell, listener);
        }
    }
}

/// With an empty mailbox nothing is taken.
proof fn lemma_await_nothing(
    waiting: bool,
    mail: Seq<PendingRequest>,
    bell: Chan,
    lane: LaneId,
)
    requires
        mail.len() == 0,
    ensures
        !(await_run(waiting, mail, bell, lane).end is Taken),
    decreases bell.messages.len(),
{
    if bell.messages.len() > 0 {
        lemma_await_nothing(false, mail, bell.recv(lane).0, lane);
    }
}

/// The decision reaches who asked: accepted, the request gives the channel, and the accepter
/// counts one more inbound channel; rejected, it fails as rejected and the requester's
/// channel counts no more. Until it is decided, the requester waits.
pub proof fn decision_reaches_who_asked(
    a: &mut ChannelBroker,
    incoming: IncomingRequest,
    accepter: LaneId,
    t: &mut System,
    k: &mut Scheduler,
    side: Side,
    j: &mut ChannelBroker,
    l: &mut Scheduler,
    pending: PendingAnswer,
    lane: LaneId,
    mine: &mut Side,
    s: &mut System,
    b: &mut ChannelBroker,
    m: &mut Scheduler,
    yes: Progress<Result<(), ChannelError>>,
    mine2: &mut Side,
    s2: &mut System,
    b2: &mut ChannelBroker,
    m2: &mut Scheduler,
    no: Progress<Result<(), ChannelError>>,
    mine3: &mut Side,
    s3: &mut System,
    b3: &mut ChannelBroker,
    m3: &mut Scheduler,
    early: Progress<Result<(), ChannelError>>,
)
    requires
        pending.accept_signal == incoming@.accept_signal,
        old(t)@.inbound_channels < u32::MAX,
        old(a)@.signals.dom().contains(pending.accept_signal.0),
        old(a)@.signals[pending.accept_signal.0] == fresh_signal(pending.accept_signal),
        call_ensures(IncomingRequest::accept::<Scheduler>, (incoming, accepter, t, a, k), side),
        *old(j) == *old(a),
        call_ensures(IncomingRequest::reject::<Scheduler>, (incoming, accepter, j, l), ()),
        *old(b) == *final(a),
        call_ensures(PendingAnswer::poll::<Scheduler>, (&pending, lane, mine, s, b, m), yes),
        *old(b2) == *final(j),
        *old(mine2) == *old(mine) && *old(s2) == *old(s),
        call_ensures(PendingAnswer::poll::<Scheduler>, (&pending, lane, mine2, s2, b2, m2), no),
        *old(b3) == *old(a),
        *old(mine3) == *old(mine) && *old(s3) == *old(s),
        call_ensures(PendingAnswer::poll::<Scheduler>, (&pending, lane, mine3, s3, b3, m3), early),
        old(mine)@ == (Counted { role: ChannelRole::Outbound, released: false }),
        old(s)@.outbound_channels > 0,
    ensures
        yes == Progress::Ready(Ok::<(), ChannelError>(())),
        no == Progress::Ready(Err::<(), ChannelError>(ChannelError::TargetRejected)),
        early is Pending,
        final(t)@.inbound_channels == old(t)@.inbound_channels + 1,
        side@.role is Inbound && !side@.released,
        final(s)@ == old(s)@,
        final(s2)@.outbound_channels == old(s)@.outbound_channels - 1,
        final(s2)@.local_channels == old(s)@.local_channels && final(s2)@.inbound_channels
            == old(s)@.inbound_channels,
        final(s3)@ == old(s)@,
{
}

/// A channel that is closed keeps what it holds, and counts for its side no more, once: for
/// the kind of channel that it is to that side, and for no other.
pub proof fn closing_counts_down_once<T, K: KernelInterface>(
    c: &mut Channel<T>,
    side: &mut Side,
    s: &mut System,
    k: &mut K,
    again: &mut Side,
    s2: &mut System,
)
    requires
        call_ensures(Channel::<T>::close::<K>, (c, side, s, k), ()),
        !old(side)@.released,
        old(s)@.local_channels > 0 && old(s)@.outbound_channels > 0 && old(s)@.inbound_channels
            > 0,
        *old(again) == *final(side),
        *old(s2) == *final(s),
        call_ensures(Side::release, (again, s2), ()),
    ensures
        final(c)@.signal.closed && final(c)@.queue == old(c)@.queue,
        final(s)@.local_channels == old(s)@.local_channels - (if old(side)@.role is Local {
            1int
        } else {
            0
        }),
        final(s)@.outbound_channels == old(s)@.outbound_channels - (if old(side)@.role is Outbound {
            1int
        } else {
            0
        }),
        final(s)@.inbound_channels == old(s)@.inbound_channels - (if old(side)@.role is Inbound {
            1int
        } else {
            0
        }),
        final(s)@.active_lanes == old(s)@.active_lanes,
        final(s2)@ == final(s)@,
{
}

} // verus!
