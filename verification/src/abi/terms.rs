//! Channel terms and their wire form.
use vstd::prelude::*;
use vstd::slice::{slice_subrange, slice_to_vec};
use vstd::utf8::encode_utf8;
use crate::abi::ids::BoundaryId;
use crate::kernel::bytes::{
    get_le32, get_le64, le32_at, le32_is_little_endian, le32_bytes, le64_at, le64_bytes, lemma_le32, lemma_le64, push_le32,
    push_le64, zeros,
};

verus! {

/// Which end of a channel may send.
#[derive(Debug, Clone, Copy, PartialEq, Eq, Structural)]
pub enum ChannelDirection {
    /// The requester sends, the receiver receives.
    RequesterToReceiver,
    /// The receiver sends, the requester receives.
    ReceiverToRequester,
    /// Both ends send and receive.
    Bidirectional,
}

/// Why a channel operation or its terms were refused.
#[derive(Debug, Clone, Copy, PartialEq, Eq, Structural)]
pub enum ProtocolError {
    /// The channel is closed (and, for a receive, drained).
    ChannelClosed,
    /// A message is larger than the terms allow.
    MessageTooLarge {
        /// The size of the message.
        size: usize,
        /// The largest size allowed.
        maximum: usize,
    },
    /// The terms themselves are not acceptable.
    InvalidTerms,
}

impl ProtocolError {
    /// What the error says.
    pub open spec fn text(self) -> Seq<char> {
        match self {
            ProtocolError::ChannelClosed => "channel closed"@,
            ProtocolError::MessageTooLarge { .. } => "message too large"@,
            ProtocolError::InvalidTerms => "invalid channel terms"@,
        }
    }

    /// What the error says.
    pub fn message(&self) -> (s: &'static str)
        ensures
            s@ == self.text(),
    {
        match self {
            ProtocolError::ChannelClosed => "channel closed",
            ProtocolError::MessageTooLarge { .. } => "message too large",
            ProtocolError::InvalidTerms => "invalid channel terms",
        }
    }
}

/// Longest protocol name.
pub const PROTOCOL_NAME_MAX: usize = 32;

/// Bytes of the wire form of channel terms.
pub const CHANNEL_TERMS_WIRE_LEN: usize = 48;

/// Bytes of the wire form of a channel request.
pub const CHANNEL_REQUEST_WIRE_LEN: usize = 56;

/// What the two ends of a channel agreed on.
#[derive(Debug, Clone, PartialEq, Eq)]
pub struct ChannelTerms {
    /// The protocol spoken over the channel.
    pub protocol: Vec<u8>,
    /// Which end may send.
    pub direction: ChannelDirection,
    /// The largest message, in bytes.
    pub max_message_bytes: u32,
    /// How many messages the channel buffers.
    pub buffer_capacity: u32,
}

/// Channel terms as a mathematical value.
pub ghost struct Terms {
    pub protocol: Seq<u8>,
    pub direction: ChannelDirection,
    pub max_message_bytes: u32,
    pub buffer_capacity: u32,
}

impl View for ChannelTerms {
    type V = Terms;

    open spec fn view(&self) -> Terms {
        Terms {
            protocol: self.protocol@,
            direction: self.direction,
            max_message_bytes: self.max_message_bytes,
            buffer_capacity: self.buffer_capacity,
        }
    }
}

impl Terms {
    /// The terms name a protocol and allow some message.
    pub open spec fn valid(self) -> bool {
        &&& 0 < self.protocol.len() <= 32
        &&& self.max_message_bytes > 0
        &&& self.buffer_capacity > 0
    }
}

/// The number that stands for a direction on the wire.
pub open spec fn direction_code(d: ChannelDirection) -> u32 {
    match d {
        ChannelDirection::RequesterToReceiver => 0,
        ChannelDirection::ReceiverToRequester => 1,
        ChannelDirection::Bidirectional => 2,
    }
}

/// The wire form of terms, 48 bytes: message size, capacity, direction and name
/// length as little-endian words, then the name padded to 32 bytes.
pub open spec fn terms_bytes(t: Terms) -> Seq<u8> {
    le32_bytes(t.max_message_bytes) + le32_bytes(t.buffer_capacity) + le32_bytes(
        direction_code(t.direction),
    ) + le32_bytes(t.protocol.len() as u32) + t.protocol + zeros((32 - t.protocol.len()) as nat)
}

/// The terms that 48 bytes stand for, if they are valid.
pub open spec fn terms_of(s: Seq<u8>) -> Option<Terms> {
    let code = le32_at(s, 8);
    let len = le32_at(s, 12);
    if code > 2 || len > 32 {
        None
    } else {
        let t = Terms {
            protocol: s.subrange(16, 16 + len),
            direction: if code == 0 {
                ChannelDirection::RequesterToReceiver
            } else if code == 1 {
                ChannelDirection::ReceiverToRequester
            } else {
                ChannelDirection::Bidirectional
            },
            max_message_bytes: le32_at(s, 0),
            buffer_capacity: le32_at(s, 4),
        };
        if t.valid() {
            Some(t)
        } else {
            None
        }
    }
}

impl ChannelTerms {
    /// Terms for `protocol`. A channel carries at least one message of at least
    /// one byte, and its protocol has a name.
    pub fn new(
        protocol: &str,
        direction: ChannelDirection,
        max_message_bytes: u32,
        buffer_capacity: u32,
    ) -> (r: Result<ChannelTerms, ProtocolError>)
        ensures
            ({
                let t = Terms {
                    protocol: encode_utf8(protocol@),
                    direction,
                    max_message_bytes,
                    buffer_capacity,
                };
                match r {
                    Ok(terms) => t.valid() && terms@ == t,
                    Err(e) => !t.valid() && e is InvalidTerms,
                }
            }),
    {
        let name: &[u8] = protocol.as_bytes();
        if name.len() == 0 || name.len() > PROTOCOL_NAME_MAX || max_message_bytes == 0
            || buffer_capacity == 0 {
            return Err(ProtocolError::InvalidTerms);
        }
        Ok(
            ChannelTerms {
                protocol: slice_to_vec(name),
                direction,
                max_message_bytes,
                buffer_capacity,
            },
        )
    }

    /// A copy of the terms.
    pub fn copy(&self) -> (r: ChannelTerms)
        ensures
            r@ == self@,
    {
        ChannelTerms {
            protocol: slice_to_vec(self.protocol.as_slice()),
            direction: self.direction,
            max_message_bytes: self.max_message_bytes,
            buffer_capacity: self.buffer_capacity,
        }
    }

    /// Encode the terms.
    pub fn to_bytes(&self) -> (out: Vec<u8>)
        requires
            self@.valid(),
        ensures
            out@ == terms_bytes(self@),
    {
        let mut out: Vec<u8> = Vec::new();
        push_le32(&mut out, self.max_message_bytes);
        push_le32(&mut out, self.buffer_capacity);
        push_le32(
            &mut out,
            match self.direction {
                ChannelDirection::RequesterToReceiver => 0,
                ChannelDirection::ReceiverToRequester => 1,
                ChannelDirection::Bidirectional => 2,
            },
        );
        push_le32(&mut out, self.protocol.len() as u32);
        let mut name: Vec<u8> = slice_to_vec(self.protocol.as_slice());
        out.append(&mut name);
        let rest: usize = PROTOCOL_NAME_MAX - self.protocol.len();
        let mut pad: Vec<u8> = vec![0u8;rest];
        out.append(&mut pad);
        assert(out@ =~= terms_bytes(self@));
        out
    }

    /// Decode terms from their wire form.
    pub fn from_bytes(buf: &[u8]) -> (r: Option<ChannelTerms>)
        requires
            buf@.len() == 48,
        ensures
            match r {
                Some(t) => terms_of(buf@) == Some(t@),
                None => terms_of(buf@) is None,
            },
    {
        let code: u32 = get_le32(buf, 8);
        let len: u32 = get_le32(buf, 12);
        let max_message_bytes: u32 = get_le32(buf, 0);
        let buffer_capacity: u32 = get_le32(buf, 4);
        if code > 2 || len > 32 || len == 0 || max_message_bytes == 0 || buffer_capacity == 0 {
            return None;
        }
        let direction: ChannelDirection = if code == 0 {
            ChannelDirection::RequesterToReceiver
        } else if code == 1 {
            ChannelDirection::ReceiverToRequester
        } else {
            ChannelDirection::Bidirectional
        };
        Some(
            ChannelTerms {
                protocol: slice_to_vec(slice_subrange(buf, 16, 16 + len as usize)),
                direction,
                max_message_bytes,
                buffer_capacity,
            },
        )
    }
}

/// Valid terms survive their wire form.
pub proof fn terms_round_trip(t: Terms)
    requires
        t.valid(),
    ensures
        terms_bytes(t).len() == 48,
        terms_of(terms_bytes(t)) == Some(t),
{
    let s = terms_bytes(t);
    lemma_le32(t.max_message_bytes);
    lemma_le32(t.buffer_capacity);
    lemma_le32(direction_code(t.direction));
    lemma_le32(t.protocol.len() as u32);
    assert(s.subrange(0, 4) =~= le32_bytes(t.max_message_bytes));
    assert(s.subrange(4, 8) =~= le32_bytes(t.buffer_capacity));
    assert(s.subrange(8, 12) =~= le32_bytes(direction_code(t.direction)));
    assert(s.subrange(12, 16) =~= le32_bytes(t.protocol.len() as u32));
    assert(s.subrange(16, 16 + t.protocol.len() as int) =~= t.protocol);
}

/// A request for a channel as it crosses a boundary: who asks, and for what.
#[derive(Debug, Clone, PartialEq, Eq)]
pub struct ChannelRequestWire {
    /// The boundary that asks.
    pub requester: BoundaryId,
    /// The terms it proposes.
    pub terms: ChannelTerms,
}

/// The wire form of a request, 56 bytes: the requester, then the terms.
pub open spec fn request_bytes(requester: BoundaryId, t: Terms) -> Seq<u8> {
    le64_bytes(requester.0) + terms_bytes(t)
}

/// The request that 56 bytes stand for, if its terms are valid.
pub open spec fn request_of(s: Seq<u8>) -> Option<(BoundaryId, Terms)> {
    match terms_of(s.subrange(8, 56)) {
        Some(t) => Some((BoundaryId(le64_at(s, 0)), t)),
        None => None,
    }
}

impl ChannelRequestWire {
    /// Encode the request.
    pub fn to_bytes(&self) -> (out: Vec<u8>)
        requires
            self.terms@.valid(),
        ensures
            out@ == request_bytes(self.requester, self.terms@),
    {
        let mut out: Vec<u8> = Vec::new();
        push_le64(&mut out, self.requester.0);
        let mut terms: Vec<u8> = self.terms.to_bytes();
        out.append(&mut terms);
        assert(out@ =~= request_bytes(self.requester, self.terms@));
        out
    }

    /// Decode a request from its wire form.
    pub fn from_bytes(buf: &[u8]) -> (r: Option<ChannelRequestWire>)
        requires
            buf@.len() == 56,
        ensures
            match r {
                Some(q) => request_of(buf@) == Some((q.requester, q.terms@)),
                None => request_of(buf@) is None,
            },
    {
        let requester: u64 = get_le64(buf, 0);
        match ChannelTerms::from_bytes(slice_subrange(buf, 8, 56)) {
            Some(terms) => Some(ChannelRequestWire { requester: BoundaryId(requester), terms }),
            None => None,
        }
    }
}

/// A request with valid terms survives its wire form.
pub proof fn request_round_trip(requester: BoundaryId, t: Terms)
    requires
        t.valid(),
    ensures
        request_bytes(requester, t).len() == 56,
        request_of(request_bytes(requester, t)) == Some((requester, t)),
{
    let s = request_bytes(requester, t);
    terms_round_trip(t);
    lemma_le64(requester.0);
    assert(s.subrange(0, 8) =~= le64_bytes(requester.0));
    assert(s.subrange(8, 56) =~= terms_bytes(t));
}

/// Where the fields of terms stand on the wire: the largest message in bytes 0 to 3, the
/// capacity in bytes 4 to 7, the direction in bytes 8 to 11, the length of the name in
/// bytes 12 to 15, each little-endian, and the name from byte 16 on.
pub proof fn terms_layout(raw: Seq<u8>, t: Terms)
    requires
        raw.len() == 48,
        terms_of(raw) == Some(t),
    ensures
        t.max_message_bytes == raw[0] as int + raw[1] as int * 0x100 + raw[2] as int * 0x1_0000
            + raw[3] as int * 0x100_0000,
        t.buffer_capacity == raw[4] as int + raw[5] as int * 0x100 + raw[6] as int * 0x1_0000
            + raw[7] as int * 0x100_0000,
        t.direction is RequesterToReceiver <==> raw[8] == 0,
        t.direction is ReceiverToRequester <==> raw[8] == 1,
        t.direction is Bidirectional <==> raw[8] == 2,
        raw[9] == 0 && raw[10] == 0 && raw[11] == 0,
        t.protocol.len() == raw[12],
        0 < t.protocol.len() <= 32,
        t.max_message_bytes > 0 && t.buffer_capacity > 0,
        forall|i: int| 0 <= i < t.protocol.len() ==> #[trigger] t.protocol[i] == raw[16 + i],
{
    le32_is_little_endian(raw, 0);
    le32_is_little_endian(raw, 4);
    le32_is_little_endian(raw, 8);
    le32_is_little_endian(raw, 12);
}

/// Terms can be made exactly of a name of 1 to 32 bytes, a largest message and a capacity
/// that are not zero; they hold what they were made of.
pub proof fn terms_hold_what_they_were_made_of(
    protocol: &str,
    direction: ChannelDirection,
    max_message_bytes: u32,
    buffer_capacity: u32,
    r: Result<ChannelTerms, ProtocolError>,
)
    requires
        call_ensures(ChannelTerms::new, (protocol, direction, max_message_bytes, buffer_capacity), r),
    ensures
        r is Ok <==> 0 < encode_utf8(protocol@).len() <= 32 && max_message_bytes > 0
            && buffer_capacity > 0,
        r matches Ok(t) ==> t.protocol@ == encode_utf8(protocol@) && t.direction == direction
            && t.max_message_bytes == max_message_bytes && t.buffer_capacity == buffer_capacity,
        r matches Err(e) ==> e is InvalidTerms,
{
}

/// What one side puts on the wire, terms or a request with its terms, the other side reads
/// from it.
pub proof fn terms_arrive(
    t: ChannelTerms,
    wire: Vec<u8>,
    buf: &[u8],
    got: Option<ChannelTerms>,
    q: ChannelRequestWire,
    wire2: Vec<u8>,
    buf2: &[u8],
    got2: Option<ChannelRequestWire>,
)
    requires
        t@.valid(),
        q.terms@.valid(),
        call_ensures(ChannelTerms::to_bytes, (&t,), wire),
        buf@ == wire@,
        call_ensures(ChannelTerms::from_bytes, (buf,), got),
        call_ensures(ChannelRequestWire::to_bytes, (&q,), wire2),
        buf2@ == wire2@,
        call_ensures(ChannelRequestWire::from_bytes, (buf2,), got2),
    ensures
        got matches Some(g) && g.protocol@ == t.protocol@ && g.direction == t.direction
            && g.max_message_bytes == t.max_message_bytes && g.buffer_capacity
            == t.buffer_capacity,
        got2 matches Some(g) && g.requester == q.requester && g.terms.protocol@
            == q.terms.protocol@ && g.terms.direction == q.terms.direction
            && g.terms.max_message_bytes == q.terms.max_message_bytes && g.terms.buffer_capacity
            == q.terms.buffer_capacity,
{
    terms_round_trip(t@);
    request_round_trip(q.requester, q.terms@);
}

} // verus!
