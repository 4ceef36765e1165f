//! Cross-container channel rendezvous.
//!
//! All containers on one host share a [`ChannelBroker`]. A requester enqueues a
//! [`PendingRequest`] for a target and rings the target's doorbell; the target drains
//! its mailbox (waiting on the doorbell when empty), and accepts or rejects,
//! answering the requester over the request's accept signal. The broker is
//! type-agnostic: the typed connection stays with the host under its id, and a
//! number stands for the type of its messages.
use std::collections::VecDeque;
use vstd::prelude::*;
use vstd::utf8::is_ascii_chars_encode_utf8;
use crate::abi::ids::{BoundaryId, ChannelId, LaneId};
use crate::abi::sched::KernelInterface;
use crate::abi::terms::{ChannelDirection, ChannelTerms};
use crate::kernel::channel::{kernel_did, Chan, Channel, KernelCall, Progress, Received, RecvStep};
use crate::sdk::system::IdSource;
use crate::sorted_map::SortedMap;

verus! {

/// A pending cross-container channel request awaiting the target's decision.
#[derive(Debug, Clone, Copy, PartialEq, Eq)]
pub struct PendingRequest {
    /// The requesting container.
    pub source: BoundaryId,
    /// Informational channel purpose.
    pub purpose: &'static str,
    /// The connection, by the id of its token channel.
    pub connection: ChannelId,
    /// The number that stands for the type of its messages.
    pub message_type: u64,
    /// The buffer capacity of the connection.
    pub capacity: usize,
    /// The requester waits on this; accept sends `[1]`, reject sends `[0]`.
    pub accept_signal: ChannelId,
}

/// Notifications that a doorbell buffers.
pub const DOORBELL_CAPACITY: u32 = 64;

/// A doorbell as it is made: one-byte messages, 64 of them buffered.
pub open spec fn fresh_doorbell(id: ChannelId) -> Chan {
    Chan {
        id,
        capacity: 64,
        max_message_bytes: 1,
        messages: Seq::empty(),
        receiver_waiter: None,
        sender_waiter: None,
        closed: false,
    }
}

/// The calls in `calls`, one after the other, took `before` to `after`.
pub open spec fn kernel_did_all<K: KernelInterface>(
    before: K,
    calls: Seq<KernelCall>,
    after: K,
) -> bool
    decreases calls.len(),
{
    if calls.len() == 0 {
        after == before
    } else {
        exists|between: K|
            kernel_did_all(before, calls.drop_last(), between) && #[trigger] kernel_did(
                between,
                calls.last(),
                after,
            )
    }
}

/// One more call.
pub proof fn lemma_kernel_did_one_more<K: KernelInterface>(
    before: K,
    calls: Seq<KernelCall>,
    between: K,
    call: KernelCall,
    after: K,
)
    requires
        kernel_did_all(before, calls, between),
        kernel_did(between, call, after),
    ensures
        kernel_did_all(before, calls.push(call), after),
{
    let all = calls.push(call);
    assert(all.drop_last() =~= calls);
    assert(kernel_did_all(before, all.drop_last(), between));
    assert(kernel_did(between, all.last(), after));
}

/// The state of a broker.
pub ghost struct Brokerage {
    pub inbox: Map<u64, Seq<PendingRequest>>,
    pub doorbells: Map<u64, Chan>,
    pub signals: Map<u64, Chan>,
}

impl Brokerage {
    /// Nothing requested, no doorbells.
    pub open spec fn empty() -> Brokerage {
        Brokerage { inbox: Map::empty(), doorbells: Map::empty(), signals: Map::empty() }
    }

    /// The requests that await `target`, oldest first.
    pub open spec fn mailbox(self, target: BoundaryId) -> Seq<PendingRequest> {
        if self.inbox.dom().contains(target.0) {
            self.inbox[target.0]
        } else {
            Seq::empty()
        }
    }

    /// Whether `target` has a doorbell.
    pub open spec fn has_doorbell(self, target: BoundaryId) -> bool {
        self.doorbells.dom().contains(target.0)
    }

    /// The doorbell of `target`, made under the id `next` if there is none yet.
    pub open spec fn doorbell_of(self, target: BoundaryId, next: u64) -> Chan {
        if self.has_doorbell(target) {
            self.doorbells[target.0]
        } else {
            fresh_doorbell(ChannelId(next))
        }
    }

    /// Whether somebody waits for an answer on `signal`.
    pub open spec fn awaits(self, signal: ChannelId) -> bool {
        self.signals.dom().contains(signal.0)
    }

    /// A request submitted: it goes to the end of the mailbox, the doorbell rings if
    /// there is one, and the accept signal is held for the answer.
    pub open spec fn submitted(
        self,
        target: BoundaryId,
        request: PendingRequest,
        signal: Chan,
        ringer: LaneId,
    ) -> (Brokerage, KernelCall) {
        let with_request = Brokerage {
            inbox: self.inbox.insert(target.0, self.mailbox(target).push(request)),
            signals: self.signals.insert(request.accept_signal.0, signal),
            ..self
        };
        if self.has_doorbell(target) {
            let (rung, _step, call) = self.doorbells[target.0].send(ringer, seq![1u8]);
            (
                Brokerage { doorbells: self.doorbells.insert(target.0, rung), ..with_request },
                call,
            )
        } else {
            (with_request, KernelCall::Nothing)
        }
    }

    /// A request answered: `[1]` for yes, `[0]` for no.
    pub open spec fn answered(self, signal: ChannelId, accepted: bool, lane: LaneId) -> (
        Brokerage,
        KernelCall,
    ) {
        if self.awaits(signal) {
            let mark: u8 = if accepted {
                1
            } else {
                0
            };
            let (told, _step, call) = self.signals[signal.0].send(lane, seq![mark]);
            (Brokerage { signals: self.signals.insert(signal.0, told), ..self }, call)
        } else {
            (self, KernelCall::Nothing)
        }
    }
}

/// Shared cross-container rendezvous for every container on one host.
pub struct ChannelBroker {
    inbox: SortedMap<VecDeque<PendingRequest>>,
    doorbells: SortedMap<Channel>,
    signals: SortedMap<Channel>,
}

/// The mailboxes of a broker.
spec fn mailboxes(inbox: Map<u64, VecDeque<PendingRequest>>) -> Map<u64, Seq<PendingRequest>> {
    inbox.map_values(|q: VecDeque<PendingRequest>| q@)
}

/// The states of a list of channels.
spec fn states(channels: Map<u64, Channel>) -> Map<u64, Chan> {
    channels.map_values(|c: Channel| c@)
}

proof fn lemma_states(channels: Map<u64, Channel>, key: u64)
    ensures
        states(channels).dom() == channels.dom(),
        forall|c: Channel| #[trigger]
            states(channels.insert(key, c)) == states(channels).insert(key, c@),
        states(channels.remove(key)) == states(channels).remove(key),
{
    assert(states(channels).dom() =~= channels.dom());
    assert forall|c: Channel| #[trigger]
        states(channels.insert(key, c)) == states(channels).insert(key, c@) by {
        assert(states(channels.insert(key, c)) =~= states(channels).insert(key, c@));
    }
    assert(states(channels.remove(key)) =~= states(channels).remove(key));
}

proof fn lemma_mailboxes(inbox: Map<u64, VecDeque<PendingRequest>>, key: u64)
    ensures
        mailboxes(inbox).dom() == inbox.dom(),
        forall|q: VecDeque<PendingRequest>| #[trigger]
            mailboxes(inbox.insert(key, q)) == mailboxes(inbox).insert(key, q@),
{
    assert(mailboxes(inbox).dom() =~= inbox.dom());
    assert forall|q: VecDeque<PendingRequest>| #[trigger]
        mailboxes(inbox.insert(key, q)) == mailboxes(inbox).insert(key, q@) by {
        assert(mailboxes(inbox.insert(key, q)) =~= mailboxes(inbox).insert(key, q@));
    }
}

impl View for ChannelBroker {
    type V = Brokerage;

    closed spec fn view(&self) -> Brokerage {
        Brokerage {
            inbox: mailboxes(self.inbox@),
            doorbells: states(self.doorbells@),
            signals: states(self.signals@),
        }
    }
}

impl ChannelBroker {
    /// The lists are in order.
    pub closed spec fn wf(&self) -> bool {
        self.inbox.wf() && self.doorbells.wf() && self.signals.wf()
    }

    /// A fresh, empty broker.
    pub fn new() -> (b: ChannelBroker)
        ensures
            b.wf(),
            b@ == Brokerage::empty(),
    {
        let b = ChannelBroker {
            inbox: SortedMap::new(),
            doorbells: SortedMap::new(),
            signals: SortedMap::new(),
        };
        proof {
            assert(b@.inbox =~= Map::<u64, Seq<PendingRequest>>::empty());
            assert(b@.doorbells =~= Map::<u64, Chan>::empty());
            assert(b@.signals =~= Map::<u64, Chan>::empty());
        }
        b
    }

    /// Enqueue a request for `target` and ring its doorbell if it has one, on behalf
    /// of `ringer`. The ring is best-effort: the mailbox is the source of truth, so a
    /// full doorbell is harmless.
    pub fn submit<K: KernelInterface>(
        &mut self,
        target: BoundaryId,
        request: PendingRequest,
        accept_signal: Channel,
        ringer: LaneId,
        kernel: &mut K,
    )
        requires
            old(self).wf(),
            old(kernel).sound(),
        ensures
            final(self).wf(),
            final(kernel).sound(),
            ({
                let (after, call) = old(self)@.submitted(
                    target,
                    request,
                    accept_signal@,
                    ringer,
                );
                final(self)@ == after && kernel_did(*old(kernel), call, *final(kernel))
            }),
    {
        proof {
            lemma_mailboxes(self.inbox@, target.0);
            lemma_states(self.signals@, request.accept_signal.0);
            lemma_states(self.doorbells@, target.0);
        }
        self.signals.insert(request.accept_signal.0, accept_signal);
        let queued: bool = match self.inbox.get_mut(target.0) {
            Some(q) => {
                q.push_back(request);
                true
            },
            None => false,
        };
        if !queued {
            let mut q: VecDeque<PendingRequest> = VecDeque::new();
            q.push_back(request);
            self.inbox.insert(target.0, q);
        }
        if let Some(bell) = self.doorbells.get_mut(target.0) {
            let ring: [u8; 1] = [1];
            assert(ring@ =~= seq![1u8]);
            let _step = bell.try_send(ringer, &ring, kernel);
        }
    }

    /// The doorbell a container waits on for incoming requests, made on first use.
    pub fn doorbell(&mut self, target: BoundaryId, ids: &mut IdSource) -> (c: &mut Channel)
        requires
            old(self).wf(),
            old(self)@.has_doorbell(target) || old(ids)@.channel < u64::MAX,
        ensures
            final(self).wf(),
            c@ == old(self)@.doorbell_of(target, old(ids)@.channel),
            final(self)@ == (Brokerage {
                doorbells: old(self)@.doorbells.insert(target.0, final(c)@),
                ..old(self)@
            }),
            final(ids)@ == if old(self)@.has_doorbell(target) {
                old(ids)@
            } else {
                old(ids)@.channel_minted()
            },
    {
        proof {
            lemma_states(self.doorbells@, target.0);
        }
        if !self.doorbells.contains_key(target.0) {
            proof {
                reveal_strlit("xc-doorbell");
                is_ascii_chars_encode_utf8("xc-doorbell"@);
            }
            let id: u64 = ids.mint_channel();
            let terms: ChannelTerms = ChannelTerms::new(
                "xc-doorbell",
                ChannelDirection::Bidirectional,
                1,
                DOORBELL_CAPACITY,
            ).unwrap();
            let bell: Channel = Channel::new(ChannelId::new(id), &terms);
            assert(bell@ == fresh_doorbell(ChannelId(id)));
            self.doorbells.insert(target.0, bell);
        }
        proof {
            lemma_states(self.doorbells@, target.0);
            assert forall|c: Chan|
                #![trigger states(self.doorbells@).insert(target.0, c)]
                states(self.doorbells@).insert(target.0, c) == old(self)@.doorbells.insert(
                    target.0,
                    c,
                ) by {
                assert(states(self.doorbells@).insert(target.0, c) =~= old(self)@.doorbells.insert(
                    target.0,
                    c,
                ));
            }
        }
        self.doorbells.get_mut(target.0).unwrap()
    }

    /// Take the next pending request for `target`, if any.
    pub fn take(&mut self, target: BoundaryId) -> (r: Option<PendingRequest>)
        requires
            old(self).wf(),
        ensures
            final(self).wf(),
            ({
                let mail = old(self)@.mailbox(target);
                if mail.len() > 0 {
                    &&& r == Some(mail[0])
                    &&& final(self)@ == (Brokerage {
                        inbox: old(self)@.inbox.insert(target.0, mail.drop_first()),
                        ..old(self)@
                    })
                } else {
                    r is None && final(self)@ == old(self)@
                }
            }),
    {
        let ghost before = self.inbox@;
        proof {
            lemma_mailboxes(before, target.0);
            if before.dom().contains(target.0) {
                assert(mailboxes(before).insert(target.0, before[target.0]@) =~= mailboxes(before));
            }
        }
        match self.inbox.get_mut(target.0) {
            None => None,
            Some(q) => {
                let ghost had = q@;
                let r: Option<PendingRequest> = q.pop_front();
                if r.is_some() {
                    assert(q@ =~= had.drop_first());
                }
                r
            },
        }
    }

    /// Answer the request whose requester waits on `signal`.
    pub fn answer<K: KernelInterface>(
        &mut self,
        signal: ChannelId,
        accepted: bool,
        lane: LaneId,
        kernel: &mut K,
    )
        requires
            old(self).wf(),
            old(kernel).sound(),
        ensures
            final(self).wf(),
            final(kernel).sound(),
            ({
                let (after, call) = old(self)@.answered(signal, accepted, lane);
                final(self)@ == after && kernel_did(*old(kernel), call, *final(kernel))
            }),
    {
        proof {
            lemma_states(self.signals@, signal.0);
        }
        if let Some(c) = self.signals.get_mut(signal.0) {
            let mark: [u8; 1] = [
                if accepted {
                    1
                } else {
                    0
                },
            ];
            assert(mark@ =~= seq![mark@[0]]);
            let _step = c.try_send(lane, &mark, kernel);
        }
    }

    /// Whether the answer on `signal` has come, on behalf of `lane`: `Some` of
    /// whether it was a yes, or `None` if the rendezvous is gone. The signal is given
    /// up with the answer.
    pub fn poll_answer<K: KernelInterface>(
        &mut self,
        signal: ChannelId,
        lane: LaneId,
        kernel: &mut K,
    ) -> (p: Progress<Option<bool>>)
        requires
            old(self).wf(),
            old(kernel).sound(),
        ensures
            final(self).wf(),
            final(kernel).sound(),
            if !old(self)@.awaits(signal) {
                &&& p == Progress::Ready(None::<bool>)
                &&& final(self)@ == old(self)@
                &&& *final(kernel) == *old(kernel)
            } else {
                let (told, got, call) = old(self)@.signals[signal.0].recv(lane);
                &&& kernel_did(*old(kernel), call, *final(kernel))
                &&& p == answer_of(got)
                &&& final(self)@ == (Brokerage {
                    signals: if got is Empty {
                        old(self)@.signals.insert(signal.0, told)
                    } else {
                        old(self)@.signals.remove(signal.0)
                    },
                    ..old(self)@
                })
            },
    {
        let ghost before = self.signals@;
        proof {
            lemma_states(before, signal.0);
        }
        let step: RecvStep = match self.signals.get_mut(signal.0) {
            None => return Progress::Ready(None),
            Some(c) => c.try_recv(lane, kernel),
        };
        let p: Progress<Option<bool>> = match step {
            RecvStep::Empty => return Progress::Pending,
            RecvStep::Message(m) => Progress::Ready(Some(m.len() > 0 && m[0] == 1)),
            RecvStep::Closed => Progress::Ready(None),
        };
        let ghost between = self.signals@;
        self.signals.remove(signal.0);
        assert(between.remove(signal.0) =~= before.remove(signal.0));
        p
    }
}

/// What a requester makes of what it received on its accept signal.
pub open spec fn answer_of(got: Received) -> Progress<Option<bool>> {
    match got {
        Received::Empty => Progress::Pending,
        Received::Message(m) => Progress::Ready(Some(m.len() > 0 && m[0] == 1)),
        Received::Closed => Progress::Ready(None),
    }
}

impl Default for ChannelBroker {
    fn default() -> (b: ChannelBroker)
        ensures
            b.wf(),
            b@ == Brokerage::empty(),
    {
        ChannelBroker::new()
    }
}

/// The answer given is the answer received: a requester that waits on a fresh signal
/// learns whether the target said yes.
pub proof fn answer_reaches_the_requester(
    b: Brokerage,
    signal: ChannelId,
    accepted: bool,
    target_lane: LaneId,
    requester_lane: LaneId,
)
    requires
        b.awaits(signal),
        b.signals[signal.0].messages.len() == 0,
        b.signals[signal.0].capacity > 0,
        b.signals[signal.0].max_message_bytes > 0,
        !b.signals[signal.0].closed,
    ensures
        ({
            let told = b.answered(signal, accepted, target_lane).0;
            let got = told.signals[signal.0].recv(requester_lane).1;
            answer_of(got) == Progress::Ready(Some(accepted))
        }),
{
}

/// A request is taken by its target and by no other, after those that came before.
pub proof fn requests_are_taken_in_order(
    b: Brokerage,
    target: BoundaryId,
    other: BoundaryId,
    request: PendingRequest,
    signal: Chan,
    ringer: LaneId,
)
    requires
        other != target,
    ensures
        ({
            let after = b.submitted(target, request, signal, ringer).0;
            &&& after.mailbox(target) == b.mailbox(target).push(request)
            &&& after.mailbox(other) == b.mailbox(other)
        }),
{
}

} // verus!
