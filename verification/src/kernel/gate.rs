//! The Lattice on the kernel: gates, links and the warden over kernel channels.
//!
//! * A gate (`u16`, the "port") is bound by a boundary, which becomes its owner.
//!   Another boundary connects to a gate to reach the bound service.
//! * A link is an established bidirectional byte stream, backed by a [`Channel`],
//!   so bytes pass through the kernel, never via shared user memory.
//! * The warden is the firewall: per-gate allow/deny, checked on both bind and
//!   connect. A denied gate is neither bindable nor reachable.
use std::collections::VecDeque;
use vstd::prelude::*;
use vstd::utf8::is_ascii_chars_encode_utf8;
use crate::abi::ids::{BoundaryId, ChannelId};
use crate::abi::terms::{ChannelDirection, ChannelTerms};
use crate::kernel::channel::{Chan, Channel};
use crate::sorted_map::SortedMap;

verus! {

/// A gate identifier -- the "port".
pub type Gate = u16;

/// The result of probing a single gate.
#[derive(Debug, Clone, Copy, PartialEq, Eq, Structural)]
pub enum GateState {
    /// A listener is bound and the warden allows this gate.
    Open,
    /// No listener is bound (but the warden allows it).
    Closed,
    /// The warden denies this gate.
    Blocked,
}

/// Why a Lattice operation failed.
#[derive(Debug, Clone, Copy, PartialEq, Eq, Structural)]
pub enum GateError {
    /// No listener is bound on the target gate.
    Refused,
    /// This gate is already bound by another listener.
    AlreadyBound,
    /// The warden denies this gate (bind and connect both refused).
    Blocked,
    /// No pending connect is waiting to be accepted.
    WouldBlock,
    /// The caller does not own this gate.
    NotOwner,
}

/// A handle to a link. Both ends of a link hold the same one.
#[derive(Debug, Clone, Copy, PartialEq, Eq, Structural)]
pub struct LinkId(pub u64);

/// Messages that a link buffers.
pub const LINK_CAPACITY: u32 = 16;

/// The largest message of a link, in bytes.
pub const LINK_MAX_MESSAGE: u32 = 2048;

/// One bound gate: its owner and the connects awaiting accept, oldest first.
struct BoundGate {
    owner: BoundaryId,
    pending: VecDeque<(BoundaryId, LinkId)>,
}

/// A bound gate as a mathematical value.
pub ghost struct Bound {
    pub owner: BoundaryId,
    pub pending: Seq<(BoundaryId, LinkId)>,
}

/// The state of the Lattice.
pub ghost struct Gates {
    pub bound: Map<u64, Bound>,
    pub denied: Set<u64>,
    pub links: Map<u64, Chan>,
    pub next_link: u64,
}

/// A link is made of a fresh channel with the Lattice's terms.
pub open spec fn fresh_link(id: ChannelId) -> Chan {
    Chan {
        id,
        capacity: 16,
        max_message_bytes: 2048,
        messages: Seq::empty(),
        receiver_waiter: None,
        sender_waiter: None,
        closed: false,
    }
}

impl Gates {
    /// Whether the warden allows `gate`.
    pub open spec fn allows(self, gate: Gate) -> bool {
        !self.denied.contains(gate as u64)
    }

    /// Whether `gate` is bound.
    pub open spec fn is_bound(self, gate: Gate) -> bool {
        self.bound.dom().contains(gate as u64)
    }

    /// The state of `gate`.
    pub open spec fn state_of(self, gate: Gate) -> GateState {
        if !self.allows(gate) {
            GateState::Blocked
        } else if self.is_bound(gate) {
            GateState::Open
        } else {
            GateState::Closed
        }
    }

    /// Every link is older than the next.
    pub open spec fn wf(self) -> bool {
        forall|k: u64| #[trigger] self.links.dom().contains(k) ==> k < self.next_link
    }
}

/// The kernel Lattice: gate addressing, the warden, and the links.
pub struct GateRegistry {
    bound: SortedMap<BoundGate>,
    denied: SortedMap<bool>,
    links: SortedMap<Channel>,
    next_link: u64,
}

impl View for GateRegistry {
    type V = Gates;

    closed spec fn view(&self) -> Gates {
        Gates {
            bound: self.bound@.map_values(
                |g: BoundGate| Bound { owner: g.owner, pending: g.pending@ },
            ),
            denied: self.denied@.dom(),
            links: link_states(self.links@),
            next_link: self.next_link,
        }
    }
}

impl GateRegistry {
    /// The lists are in order.
    pub closed spec fn maps_wf(&self) -> bool {
        self.bound.wf() && self.denied.wf() && self.links.wf()
    }

    /// The lists are in order, and every link is older than the next.
    pub open spec fn wf(&self) -> bool {
        self.maps_wf() && self@.wf()
    }

    /// Create an empty Lattice (no gates bound, warden allows all).
    pub fn new() -> (r: GateRegistry)
        ensures
            r.wf(),
            r@ == (Gates {
                bound: Map::empty(),
                denied: Set::empty(),
                links: Map::empty(),
                next_link: 0,
            }),
    {
        let r = GateRegistry {
            bound: SortedMap::new(),
            denied: SortedMap::new(),
            links: SortedMap::new(),
            next_link: 0,
        };
        proof {
            assert(r@.bound =~= Map::<u64, Bound>::empty());
            assert(r@.links =~= Map::<u64, Chan>::empty());
            assert(r@.denied =~= Set::<u64>::empty());
        }
        r
    }

    /// Whether the warden currently allows `gate` (default-allow).
    pub fn is_allowed(&self, gate: Gate) -> (r: bool)
        requires
            self.wf(),
        ensures
            r == self@.allows(gate),
    {
        !self.denied.contains_key(gate as u64)
    }

    /// Warden: deny a gate (bind and connect refused).
    pub fn warden_deny(&mut self, gate: Gate)
        requires
            old(self).wf(),
        ensures
            final(self).wf(),
            final(self)@ == (Gates { denied: old(self)@.denied.insert(gate as u64), ..old(self)@ }),
    {
        self.denied.insert(gate as u64, true);
        assert(self@.denied =~= old(self)@.denied.insert(gate as u64));
    }

    /// Warden: allow a previously-denied gate.
    pub fn warden_allow(&mut self, gate: Gate)
        requires
            old(self).wf(),
        ensures
            final(self).wf(),
            final(self)@ == (Gates { denied: old(self)@.denied.remove(gate as u64), ..old(self)@ }),
    {
        self.denied.remove(gate as u64);
        assert(self@.denied =~= old(self)@.denied.remove(gate as u64));
    }

    /// Bind `gate` for `owner`, who may then accept connects on it.
    pub fn bind(&mut self, owner: BoundaryId, gate: Gate) -> (r: Result<(), GateError>)
        requires
            old(self).wf(),
        ensures
            final(self).wf(),
            match old(self)@.state_of(gate) {
                GateState::Blocked => r == Err::<(), GateError>(GateError::Blocked)
                    && *final(self) == *old(self),
                GateState::Open => r == Err::<(), GateError>(GateError::AlreadyBound)
                    && *final(self) == *old(self),
                GateState::Closed => r is Ok && final(self)@ == (Gates {
                    bound: old(self)@.bound.insert(
                        gate as u64,
                        Bound { owner, pending: Seq::empty() },
                    ),
                    ..old(self)@
                }),
            },
    {
        if !self.is_allowed(gate) {
            return Err(GateError::Blocked);
        }
        if self.bound.contains_key(gate as u64) {
            return Err(GateError::AlreadyBound);
        }
        self.bound.insert(gate as u64, BoundGate { owner, pending: VecDeque::new() });
        assert(self@.bound =~= old(self)@.bound.insert(
            gate as u64,
            Bound { owner, pending: Seq::empty() },
        ));
        Ok(())
    }

    /// Release a gate the caller owns (e.g. listener closed).
    pub fn unbind(&mut self, owner: BoundaryId, gate: Gate) -> (r: Result<(), GateError>)
        requires
            old(self).wf(),
        ensures
            final(self).wf(),
            if !old(self)@.is_bound(gate) {
                r == Err::<(), GateError>(GateError::Refused) && *final(self) == *old(self)
            } else if old(self)@.bound[gate as u64].owner != owner {
                r == Err::<(), GateError>(GateError::NotOwner) && *final(self) == *old(self)
            } else {
                r is Ok && final(self)@ == (Gates {
                    bound: old(self)@.bound.remove(gate as u64),
                    ..old(self)@
                })
            },
    {
        match self.bound.get(gate as u64) {
            None => return Err(GateError::Refused),
            Some(g) => if g.owner != owner {
                return Err(GateError::NotOwner);
            },
        }
        self.bound.remove(gate as u64);
        assert(self@.bound =~= old(self)@.bound.remove(gate as u64));
        Ok(())
    }

    /// Connect to `gate` from `from`. Creates one link, on a channel with the id
    /// `channel_id`; its handle is returned to the connector now and queued for the
    /// owner to accept.
    pub fn connect(&mut self, from: BoundaryId, gate: Gate, channel_id: ChannelId) -> (r: Result<
        LinkId,
        GateError,
    >)
        requires
            old(self).wf(),
            old(self)@.next_link < u64::MAX,
        ensures
            final(self).wf(),
            match old(self)@.state_of(gate) {
                GateState::Blocked => r == Err::<LinkId, GateError>(GateError::Blocked)
                    && *final(self) == *old(self),
                GateState::Closed => r == Err::<LinkId, GateError>(GateError::Refused)
                    && *final(self) == *old(self),
                GateState::Open => {
                    let link = LinkId(old(self)@.next_link);
                    let g = old(self)@.bound[gate as u64];
                    &&& r == Ok::<LinkId, GateError>(link)
                    &&& !old(self)@.links.dom().contains(link.0)
                    &&& final(self)@ == (Gates {
                        bound: old(self)@.bound.insert(
                            gate as u64,
                            Bound { owner: g.owner, pending: g.pending.push((from, link)) },
                        ),
                        links: old(self)@.links.insert(link.0, fresh_link(channel_id)),
                        next_link: (old(self)@.next_link + 1) as u64,
                        ..old(self)@
                    })
                },
            },
    {
        if !self.is_allowed(gate) {
            return Err(GateError::Blocked);
        }
        let link: LinkId = LinkId(self.next_link);
        proof {
            reveal_strlit("lattice-link");
            is_ascii_chars_encode_utf8("lattice-link"@);
        }
        match self.bound.get_mut(gate as u64) {
            None => return Err(GateError::Refused),
            Some(g) => {
                g.pending.push_back((from, link));
            },
        }
        let terms: ChannelTerms = match ChannelTerms::new(
            "lattice-link",
            ChannelDirection::Bidirectional,
            LINK_MAX_MESSAGE,
            LINK_CAPACITY,
        ) {
            Ok(terms) => terms,
            Err(_) => return Err(GateError::Refused),
        };
        self.links.insert(link.0, Channel::new(channel_id, &terms));
        self.next_link = self.next_link + 1;
        proof {
            let g = old(self)@.bound[gate as u64];
            assert(self@.bound =~= old(self)@.bound.insert(
                gate as u64,
                Bound { owner: g.owner, pending: g.pending.push((from, link)) },
            ));
            assert(self@.links =~= old(self)@.links.insert(link.0, fresh_link(channel_id)));
        }
        Ok(link)
    }

    /// Accept the next pending connect on `gate` (the caller must own it). Returns
    /// the link plus the connecting boundary.
    pub fn accept(&mut self, owner: BoundaryId, gate: Gate) -> (r: Result<
        (LinkId, BoundaryId),
        GateError,
    >)
        requires
            old(self).wf(),
        ensures
            final(self).wf(),
            if !old(self)@.is_bound(gate) {
                r == Err::<(LinkId, BoundaryId), GateError>(GateError::Refused) && final(self)@
                    == old(self)@
            } else {
                let g = old(self)@.bound[gate as u64];
                if g.owner != owner {
                    r == Err::<(LinkId, BoundaryId), GateError>(GateError::NotOwner) && final(self)@ == old(self)@
                } else if g.pending.len() == 0 {
                    r == Err::<(LinkId, BoundaryId), GateError>(GateError::WouldBlock) && final(self)@ == old(self)@
                } else {
                    &&& r == Ok::<(LinkId, BoundaryId), GateError>(
                        (g.pending[0].1, g.pending[0].0),
                    )
                    &&& final(self)@ == (Gates {
                        bound: old(self)@.bound.insert(
                            gate as u64,
                            Bound {
                                owner: g.owner,
                                pending: g.pending.subrange(1, g.pending.len() as int),
                            },
                        ),
                        ..old(self)@
                    })
                }
            },
    {
        match self.bound.get(gate as u64) {
            None => return Err(GateError::Refused),
            Some(g) => {
                if g.owner != owner {
                    return Err(GateError::NotOwner);
                }
                if g.pending.len() == 0 {
                    return Err(GateError::WouldBlock);
                }
            },
        }
        let next: Option<(BoundaryId, LinkId)> = match self.bound.get_mut(gate as u64) {
            None => None,
            Some(g) => g.pending.pop_front(),
        };
        match next {
            None => Err(GateError::WouldBlock),
            Some((from, link)) => {
                proof {
                    let g = old(self)@.bound[gate as u64];
                    assert(self@.bound =~= old(self)@.bound.insert(
                        gate as u64,
                        Bound {
                            owner: g.owner,
                            pending: g.pending.subrange(1, g.pending.len() as int),
                        },
                    ));
                }
                Ok((link, from))
            },
        }
    }

    /// The channel of a link.
    pub fn link(&mut self, link: LinkId) -> (r: Option<&mut Channel>)
        requires
            old(self).wf(),
        ensures
            final(self).wf(),
            match r {
                Some(c) => {
                    &&& old(self)@.links.dom().contains(link.0)
                    &&& c@ == old(self)@.links[link.0]
                    &&& final(self)@ == (Gates {
                        links: old(self)@.links.insert(link.0, final(c)@),
                        ..old(self)@
                    })
                },
                None => !old(self)@.links.dom().contains(link.0) && final(self)@ == old(self)@,
            },
    {
        proof {
            lemma_replaced_link(self.links@, link.0);
            assert forall|k: u64| #[trigger] link_states(self.links@).dom().contains(k) implies k
                < self.next_link by {
                assert(self@.links.dom().contains(k));
            }
            if self.links@.dom().contains(link.0) {
                assert(link_states(self.links@).dom().contains(link.0));
            }
        }
        self.links.get_mut(link.0)
    }

    /// Probe a single gate: open (bound + allowed), closed (allowed, unbound), or
    /// blocked (warden denies).
    pub fn probe(&self, gate: Gate) -> (s: GateState)
        requires
            self.wf(),
        ensures
            s == self@.state_of(gate),
    {
        if !self.is_allowed(gate) {
            return GateState::Blocked;
        }
        if self.bound.contains_key(gate as u64) {
            GateState::Open
        } else {
            GateState::Closed
        }
    }
}

/// The states of a list of channels.
pub open spec fn link_states(links: Map<u64, Channel>) -> Map<u64, Chan> {
    links.map_values(|c: Channel| c@)
}

/// Replacing a channel replaces its state.
proof fn lemma_replaced_link(links: Map<u64, Channel>, key: u64)
    ensures
        forall|c: Channel| #[trigger]
            link_states(links.insert(key, c)) == link_states(links).insert(key, c@),
        forall|c: Channel, k: u64|
            #[trigger] link_states(links.insert(key, c)).dom().contains(k) ==> k == key
                || link_states(links).dom().contains(k),
{
    assert forall|c: Channel| #[trigger]
        link_states(links.insert(key, c)) == link_states(links).insert(key, c@) by {
        assert(link_states(links.insert(key, c)) =~= link_states(links).insert(key, c@));
    }
}

impl Default for GateRegistry {
    fn default() -> (r: GateRegistry)
        ensures
            r.wf(),
            r@ == (Gates {
                bound: Map::empty(),
                denied: Set::empty(),
                links: Map::empty(),
                next_link: 0,
            }),
    {
        GateRegistry::new()
    }
}

/// A denied gate is blocked whether it is bound or not, and allowing it again
/// restores the state that it had.
pub proof fn denial_is_total(g: Gates, gate: Gate)
    ensures
        (Gates { denied: g.denied.insert(gate as u64), ..g }).state_of(gate) is Blocked,
        g.allows(gate) ==> (Gates {
            denied: g.denied.insert(gate as u64).remove(gate as u64),
            ..g
        }).state_of(gate) == g.state_of(gate),
{
}

/// The warden. A denied gate is blocked, and can be neither bound nor reached; an allowed
/// one is not blocked. Denying or allowing one gate changes the state of no other, and who
/// bound a gate, with the connects that wait there, outlives a denial.
pub proof fn warden_closes_and_opens(
    d: &mut GateRegistry,
    denied: GateRegistry,
    a: &mut GateRegistry,
    allowed: GateRegistry,
    gate: Gate,
    other: Gate,
    was: GateState,
    blocked: GateState,
    open: GateState,
    other_was: GateState,
    other_denied: GateState,
    other_allowed: GateState,
)
    requires
        old(d).wf() && old(a).wf() && *old(d) == *old(a),
        denied == *final(d) && allowed == *final(a),
        call_ensures(GateRegistry::warden_deny, (d, gate), ()),
        call_ensures(GateRegistry::warden_allow, (a, gate), ()),
        call_ensures(GateRegistry::probe, (&*old(d), gate), was),
        call_ensures(GateRegistry::probe, (&denied, gate), blocked),
        call_ensures(GateRegistry::probe, (&allowed, gate), open),
        other != gate,
        call_ensures(GateRegistry::probe, (&*old(d), other), other_was),
        call_ensures(GateRegistry::probe, (&denied, other), other_denied),
        call_ensures(GateRegistry::probe, (&allowed, other), other_allowed),
    ensures
        blocked is Blocked,
        open is Open <==> old(d)@.bound.dom().contains(gate as u64),
        open is Closed <==> !old(d)@.bound.dom().contains(gate as u64),
        !(was is Blocked) ==> open == was,
        other_denied == other_was && other_allowed == other_was,
        denied@.bound == old(d)@.bound && allowed@.bound == old(d)@.bound,
        denied@.links == old(d)@.links && allowed@.links == old(d)@.links,
{
}

/// Binding. A gate can be bound exactly where it is closed: a bound one is refused to
/// whoever asks, its owner too, and a blocked one to all. Once bound it is open, its owner
/// is who bound it, and nobody else can release it; released, it is closed again.
pub proof fn binding_makes_an_owner(
    s: &mut GateRegistry,
    bound: GateRegistry,
    owner: BoundaryId,
    gate: Gate,
    was: GateState,
    r: Result<(), GateError>,
    state: GateState,
    u: &mut GateRegistry,
    freed: GateRegistry,
    who: BoundaryId,
    q: Result<(), GateError>,
    after: GateState,
)
    requires
        old(s).wf(),
        bound == *final(s),
        call_ensures(GateRegistry::probe, (&*old(s), gate), was),
        call_ensures(GateRegistry::bind, (s, owner, gate), r),
        call_ensures(GateRegistry::probe, (&bound, gate), state),
        *old(u) == bound,
        freed == *final(u),
        call_ensures(GateRegistry::unbind, (u, who, gate), q),
        call_ensures(GateRegistry::probe, (&freed, gate), after),
    ensures
        r is Ok <==> was is Closed,
        was is Open ==> r == Err::<(), GateError>(GateError::AlreadyBound),
        was is Blocked ==> r == Err::<(), GateError>(GateError::Blocked),
        r is Err ==> bound == *old(s),
        r is Ok ==> state is Open && (q is Ok <==> who == owner) && (who == owner ==> after is Closed)
            && (who != owner ==> q == Err::<(), GateError>(GateError::NotOwner) && after is Open),
{
}

/// Connecting. A gate that is open can be reached by anyone, and by nobody where it is
/// closed or blocked. The connector and the owner, who alone can accept, get one and the
/// same link, which no connect got before and which is empty and open; the owner learns who
/// connected. Connects are accepted in the order in which they came.
pub proof fn connect_reaches_the_owner(
    s: &mut GateRegistry,
    mid: GateRegistry,
    from: BoundaryId,
    gate: Gate,
    channel: ChannelId,
    was: GateState,
    r: Result<LinkId, GateError>,
    t: &mut GateRegistry,
    who: BoundaryId,
    q: Result<(LinkId, BoundaryId), GateError>,
)
    requires
        old(s).wf(),
        old(s)@.next_link < u64::MAX,
        mid == *final(s),
        call_ensures(GateRegistry::probe, (&*old(s), gate), was),
        call_ensures(GateRegistry::connect, (s, from, gate, channel), r),
        *old(t) == mid,
        call_ensures(GateRegistry::accept, (t, who, gate), q),
    ensures
        r is Ok <==> was is Open,
        was is Closed ==> r == Err::<LinkId, GateError>(GateError::Refused),
        was is Blocked ==> r == Err::<LinkId, GateError>(GateError::Blocked),
        r is Err ==> mid == *old(s),
        r matches Ok(link) ==> {
            let g = old(s)@.bound[gate as u64];
            &&& !old(s)@.links.dom().contains(link.0)
            &&& mid@.links.dom().contains(link.0)
            &&& mid@.links[link.0].messages.len() == 0 && !mid@.links[link.0].closed
            &&& mid@.links[link.0].id == channel
            &&& mid@.links[link.0].capacity == 16 && mid@.links[link.0].max_message_bytes == 2048
            &&& q is Ok <==> who == g.owner
            &&& who != g.owner ==> q == Err::<(LinkId, BoundaryId), GateError>(GateError::NotOwner)
                && final(t)@ == mid@
            &&& who == g.owner && g.pending.len() == 0 ==> q == Ok::<
                (LinkId, BoundaryId),
                GateError,
            >((link, from)) && final(t)@.bound[gate as u64].pending.len() == 0
            &&& who == g.owner && g.pending.len() > 0 ==> q == Ok::<(LinkId, BoundaryId), GateError>(
                (g.pending[0].1, g.pending[0].0),
            ) && final(t)@.bound[gate as u64].pending.last() == (from, link)
                && final(t)@.bound[gate as u64].pending.len() == g.pending.len()
            &&& final(t)@.links == mid@.links
        },
        old(s)@.bound.dom().contains(gate as u64) && r is Err && who
            == old(s)@.bound[gate as u64].owner && old(s)@.bound[gate as u64].pending.len() == 0
            ==> q == Err::<(LinkId, BoundaryId), GateError>(GateError::WouldBlock),
        !old(s)@.bound.dom().contains(gate as u64) ==> q == Err::<(LinkId, BoundaryId), GateError>(
            GateError::Refused,
        ),
{
}

} // verus!
