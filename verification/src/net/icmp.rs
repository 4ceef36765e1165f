//! ICMP echo (ping) request/reply parse/build.
use vstd::prelude::*;
use vstd::slice::slice_subrange;
use crate::net::addr::NetError;
use crate::net::checksum::{
    changed_byte_is_detected, checksum, filled_checksum_is_zero, folded, word_sum,
};
use crate::net::wire::{
    be16, be16_at, front_is_written_and_the_rest_kept, get_be16, lemma_be16, overlaid, push_be16, push_bytes, put_front,
};

pub mod icmp_type;

verus! {

/// The fixed ICMP echo header length (type 1 + code 1 + csum 2 + id 2 + seq 2).
pub const ICMP_ECHO_HEADER_LEN: usize = 8;

/// A parsed ICMP echo message.
#[derive(Clone, Copy, Debug, PartialEq, Eq)]
pub struct IcmpEcho<'a> {
    pub is_reply: bool,
    pub id: u16,
    pub seq: u16,
    pub payload: &'a [u8],
}

/// The fields of an ICMP echo message.
pub ghost struct EchoFields {
    pub is_reply: bool,
    pub id: u16,
    pub seq: u16,
    pub payload: Seq<u8>,
}

impl<'a> View for IcmpEcho<'a> {
    type V = EchoFields;

    open spec fn view(&self) -> EchoFields {
        EchoFields {
            is_reply: self.is_reply,
            id: self.id,
            seq: self.seq,
            payload: self.payload@,
        }
    }
}

/// What the bytes of an echo message stand for.
pub open spec fn echo_of(buf: Seq<u8>) -> Result<EchoFields, NetError> {
    if buf.len() < 8 {
        Err(NetError::Truncated)
    } else if buf[0] != 0 && buf[0] != 8 {
        Err(NetError::Malformed)
    } else if folded(word_sum(buf)) != 0 {
        Err(NetError::BadChecksum)
    } else {
        Ok(
            EchoFields {
                is_reply: buf[0] == 0,
                id: be16_at(buf, 4),
                seq: be16_at(buf, 6),
                payload: buf.subrange(8, buf.len() as int),
            },
        )
    }
}

/// The bytes of a message of type `ty` with the checksum `c`.
pub open spec fn echo_with(ty: u8, c: u16, id: u16, seq: u16, payload: Seq<u8>) -> Seq<u8> {
    seq![ty, 0u8] + be16(c) + (be16(id) + be16(seq) + payload)
}

/// The bytes of a message of type `ty`.
pub open spec fn echo_bytes(ty: u8, id: u16, seq: u16, payload: Seq<u8>) -> Seq<u8> {
    echo_with(ty, folded(word_sum(echo_with(ty, 0, id, seq, payload))), id, seq, payload)
}

impl<'a> IcmpEcho<'a> {
    /// Parse an ICMP echo request/reply from `buf` (the IPv4 payload).
    pub fn parse(buf: &'a [u8]) -> (r: Result<IcmpEcho<'a>, NetError>)
        ensures
            match r {
                Ok(m) => echo_of(buf@) == Ok::<EchoFields, NetError>(m@),
                Err(e) => echo_of(buf@) == Err::<EchoFields, NetError>(e),
            },
    {
        if buf.len() < ICMP_ECHO_HEADER_LEN {
            return Err(NetError::Truncated);
        }
        let ty: u8 = buf[0];
        if ty != icmp_type::ECHO_REPLY && ty != icmp_type::ECHO_REQUEST {
            return Err(NetError::Malformed);
        }
        if checksum(buf) != 0 {
            return Err(NetError::BadChecksum);
        }
        Ok(
            IcmpEcho {
                is_reply: ty == icmp_type::ECHO_REPLY,
                id: get_be16(buf, 4),
                seq: get_be16(buf, 6),
                payload: slice_subrange(buf, ICMP_ECHO_HEADER_LEN, buf.len()),
            },
        )
    }
}

/// Build an ICMP echo request into `out`, returning its length.
pub fn echo_request(out: &mut [u8], id: u16, seq: u16, payload: &[u8]) -> (r: Result<
    usize,
    NetError,
>)
    ensures
        built(old(out)@, final(out)@, 8, id, seq, payload@, r),
{
    build(out, icmp_type::ECHO_REQUEST, id, seq, payload)
}

/// Build an ICMP echo reply into `out`, returning its length.
pub fn echo_reply(out: &mut [u8], id: u16, seq: u16, payload: &[u8]) -> (r: Result<
    usize,
    NetError,
>)
    ensures
        built(old(out)@, final(out)@, 0, id, seq, payload@, r),
{
    build(out, icmp_type::ECHO_REPLY, id, seq, payload)
}

/// The message of type `ty` was written at the start of the buffer, or the buffer
/// is too small and was left alone.
pub open spec fn built(
    before: Seq<u8>,
    after: Seq<u8>,
    ty: u8,
    id: u16,
    seq: u16,
    payload: Seq<u8>,
    r: Result<usize, NetError>,
) -> bool {
    if before.len() < 8 + payload.len() {
        r == Err::<usize, NetError>(NetError::BufferTooSmall) && after == before
    } else {
        r == Ok::<usize, NetError>((8 + payload.len()) as usize) && after == overlaid(
            before,
            echo_bytes(ty, id, seq, payload),
        )
    }
}

/// Build a message of type `ty`.
fn build(out: &mut [u8], ty: u8, id: u16, seq: u16, payload: &[u8]) -> (r: Result<usize, NetError>)
    ensures
        built(old(out)@, final(out)@, ty, id, seq, payload@, r),
{
    if out.len() < ICMP_ECHO_HEADER_LEN || out.len() - ICMP_ECHO_HEADER_LEN < payload.len() {
        return Err(NetError::BufferTooSmall);
    }
    let mut m: Vec<u8> = Vec::new();
    m.push(ty);
    m.push(0);  // code
    push_be16(&mut m, 0);  // checksum placeholder
    push_be16(&mut m, id);
    push_be16(&mut m, seq);
    push_bytes(&mut m, payload);
    assert(m@ =~= echo_with(ty, 0, id, seq, payload@));
    let csum: u16 = checksum(m.as_slice());
    m[2] = (csum / 256) as u8;
    m[3] = (csum % 256) as u8;
    assert(m@ =~= echo_bytes(ty, id, seq, payload@));
    put_front(out, m.as_slice());
    Ok(ICMP_ECHO_HEADER_LEN + payload.len())
}

/// An echo message that was built parses to the fields it was built from, and a
/// reply as a reply.
pub proof fn built_echo_parses(is_reply: bool, id: u16, seq: u16, payload: Seq<u8>)
    ensures
        echo_of(
            echo_bytes(
                if is_reply {
                    0
                } else {
                    8
                },
                id,
                seq,
                payload,
            ),
        ) == Ok::<EchoFields, NetError>(EchoFields { is_reply, id, seq, payload }),
{
    let ty: u8 = if is_reply {
        0
    } else {
        8
    };
    let b = echo_bytes(ty, id, seq, payload);
    let c = folded(word_sum(echo_with(ty, 0, id, seq, payload)));
    let pre = seq![ty, 0u8];
    let post = be16(id) + be16(seq) + payload;
    filled_checksum_is_zero(pre, post, c);
    lemma_be16(id, b, 4);
    lemma_be16(seq, b, 6);
    assert(b.subrange(8, b.len() as int) =~= payload);
}

/// A message with a single byte changed is rejected; after the type, for its checksum.
pub proof fn changed_echo_is_rejected(buf: Seq<u8>, i: int, b: u8)
    requires
        echo_of(buf) is Ok,
        0 <= i < buf.len(),
        b != buf[i],
    ensures
        echo_of(buf.update(i, b)) is Err,
        i > 0 ==> echo_of(buf.update(i, b)) == Err::<EchoFields, NetError>(NetError::BadChecksum),
{
    changed_byte_is_detected(buf, i, b);
}

/// Where the fields of a message stand: the type in byte 0, code 0 in byte 1, the id in
/// bytes 4 and 5, the sequence number in bytes 6 and 7, each with the high byte first,
/// and the payload from byte 8 on. A ping has type 8, its answer type 0.
pub proof fn echo_layout(ty: u8, id: u16, seq: u16, payload: Seq<u8>)
    ensures
        ({
            let b = echo_bytes(ty, id, seq, payload);
            &&& b.len() == 8 + payload.len()
            &&& b[0] == ty && b[1] == 0
            &&& b[4] as int * 256 + b[5] as int == id
            &&& b[6] as int * 256 + b[7] as int == seq
            &&& forall|i: int| 0 <= i < payload.len() ==> #[trigger] b[8 + i] == payload[i]
            &&& word_sum(b) % 65535 == 0
        }),
{
    let b = echo_bytes(ty, id, seq, payload);
    let c = folded(word_sum(echo_with(ty, 0, id, seq, payload)));
    filled_checksum_is_zero(seq![ty, 0u8], be16(id) + be16(seq) + payload, c);
    assert(folded(word_sum(b)) == 0);
    assert((word_sum(b) - 1) % 65535 == 65534);
}

/// What a parse gives is what stands in the bytes, and what is refused is too short, no
/// echo message, or damaged.
pub proof fn parse_reads_the_fields_in_place(buf: Seq<u8>)
    ensures
        buf.len() < 8 <==> echo_of(buf) == Err::<EchoFields, NetError>(NetError::Truncated),
        buf.len() >= 8 ==> (echo_of(buf) == Err::<EchoFields, NetError>(NetError::Malformed)
            <==> buf[0] != 0 && buf[0] != 8),
        echo_of(buf) matches Ok(m) ==> {
            &&& m.is_reply ==> buf[0] == 0
            &&& !m.is_reply ==> buf[0] == 8
            &&& m.id == buf[4] as int * 256 + buf[5] as int
            &&& m.seq == buf[6] as int * 256 + buf[7] as int
            &&& m.payload.len() == buf.len() - 8
            &&& forall|i: int| 8 <= i < buf.len() ==> m.payload[i - 8] == #[trigger] buf[i]
        },
{
}

/// What a call of [`echo_request`] or of [`echo_reply`] leaves in the buffer: the same
/// bytes, but for the type, which is 8 for a ping and 0 for its answer, and the checksum.
pub proof fn echo_messages_are_written(
    ping: &mut [u8],
    pong: &mut [u8],
    id: u16,
    seq: u16,
    payload: &[u8],
    r: Result<usize, NetError>,
    s: Result<usize, NetError>,
)
    requires
        call_ensures(echo_request, (ping, id, seq, payload), r),
        call_ensures(echo_reply, (pong, id, seq, payload), s),
        old(ping)@ == old(pong)@,
    ensures
        r is Ok <==> 8 + payload@.len() <= old(ping)@.len(),
        s == r,
        r matches Err(e) ==> e is BufferTooSmall && final(ping)@ == old(ping)@ && final(pong)@
            == old(pong)@,
        r matches Ok(n) ==> {
            let b = final(ping)@;
            &&& n == 8 + payload@.len()
            &&& b.len() == old(ping)@.len()
            &&& b[0] == 8 && final(pong)@[0] == 0
            &&& b[1] == 0
            &&& b[4] as int * 256 + b[5] as int == id
            &&& b[6] as int * 256 + b[7] as int == seq
            &&& forall|i: int| 8 <= i < n ==> #[trigger] b[i] == payload@[i - 8]
            &&& forall|i: int| n <= i < b.len() ==> #[trigger] b[i] == old(ping)@[i]
            &&& final(pong)@.len() == b.len()
            &&& forall|i: int|
                1 <= i < b.len() && i != 2 && i != 3 ==> #[trigger] final(pong)@[i] == b[i]
        },
{
    if r is Ok {
        assert(old(ping).len() == old(ping)@.len());
        echo_layout(8, id, seq, payload@);
        echo_layout(0, id, seq, payload@);
        let d = echo_bytes(8, id, seq, payload@);
        let b = final(ping)@;
        let e = echo_bytes(0, id, seq, payload@);
        front_is_written_and_the_rest_kept(old(ping)@, d);
        front_is_written_and_the_rest_kept(old(pong)@, e);
        assert(forall|i: int| 0 <= i < 8 ==> b[i] == d[i]);
        assert(final(pong)@[0] == e[0]);
        assert forall|i: int| 8 <= i < 8 + payload@.len() implies #[trigger] b[i]
            == payload@[i - 8] by {
            assert(d[8 + (i - 8)] == payload@[i - 8]);
        }
        let f = final(pong)@;
        assert forall|i: int| 1 <= i < b.len() && i != 2 && i != 3 implies #[trigger] f[i]
            == b[i] by {
            if i >= 8 && i < e.len() {
                assert(e[8 + (i - 8)] == payload@[i - 8]);
            }
        }
    }
}

/// A ping reaches the other side as a ping, and the answer comes back as an answer, both
/// with the id, the sequence number and the payload of the ping.
pub proof fn ping_is_answered(
    out: &mut [u8],
    back: &mut [u8],
    id: u16,
    seq: u16,
    payload: &[u8],
    n: usize,
    wire: &[u8],
    got: IcmpEcho,
    m: usize,
    wire_back: &[u8],
    answer: Result<IcmpEcho, NetError>,
)
    requires
        call_ensures(echo_request, (out, id, seq, payload), Ok(n)),
        wire@ == final(out)@.subrange(0, 8int + payload@.len()),
        call_ensures(IcmpEcho::parse, (wire,), Ok(got)),
        call_ensures(echo_reply, (back, got.id, got.seq, got.payload), Ok(m)),
        wire_back@ == final(back)@.subrange(0, 8int + payload@.len()),
        call_ensures(IcmpEcho::parse, (wire_back,), answer),
    ensures
        !got.is_reply && got.id == id && got.seq == seq && got.payload@ == payload@,
        answer matches Ok(a) && a.is_reply && a.id == id && a.seq == seq && a.payload@ == payload@,
{
    echo_layout(8, id, seq, payload@);
    echo_layout(0, id, seq, payload@);
    built_echo_parses(false, id, seq, payload@);
    built_echo_parses(true, id, seq, payload@);
    assert(wire@ =~= echo_bytes(8, id, seq, payload@));
    assert(got@.payload == payload@);
    assert(wire_back@ =~= echo_bytes(0, id, seq, payload@));
}

} // verus!
