//! UDP datagram parse/build, including the IPv4 pseudo-header checksum.
use vstd::prelude::*;
use vstd::slice::slice_subrange;
use crate::net::addr::{Ipv4Addr, NetError};
use crate::net::checksum::{
    checksum_accumulate, checksum_fold, folded, lemma_checks_apart, lemma_checksum_fills,
    lemma_word_sum_be16, lemma_word_sum_bound, lemma_word_sum_concat, lemma_word_sum_update,
    word_sum,
};
use crate::net::ip_proto;
use crate::net::wire::{
    be16, be16_at, get_be16, lemma_be16, overlaid, push_be16, push_bytes, put_front,
};

verus! {

/// The fixed UDP header length (src port 2 + dst port 2 + length 2 + csum 2).
pub const UDP_HEADER_LEN: usize = 8;

/// A parsed UDP datagram view.
#[derive(Clone, Copy, Debug, PartialEq, Eq)]
pub struct UdpDatagram<'a> {
    pub src_port: u16,
    pub dst_port: u16,
    pub payload: &'a [u8],
}

/// The fields of a UDP datagram.
pub ghost struct UdpFields {
    pub src_port: u16,
    pub dst_port: u16,
    pub payload: Seq<u8>,
}

impl<'a> View for UdpDatagram<'a> {
    type V = UdpFields;

    open spec fn view(&self) -> UdpFields {
        UdpFields { src_port: self.src_port, dst_port: self.dst_port, payload: self.payload@ }
    }
}

/// The IPv4 pseudo-header: source, destination, zero, protocol, UDP length.
pub open spec fn pseudo_header(src: Seq<u8>, dst: Seq<u8>, udp_len: u16) -> Seq<u8> {
    src + dst + seq![0u8, 17u8] + be16(udp_len)
}

/// The checksum of a datagram's bytes under its pseudo-header.
pub open spec fn udp_checksum(src: Seq<u8>, dst: Seq<u8>, bytes: Seq<u8>) -> u16 {
    folded(word_sum(pseudo_header(src, dst, bytes.len() as u16)) + word_sum(bytes))
}

/// What the bytes of a UDP datagram stand for. A zero checksum field means that
/// none was computed, and is accepted.
pub open spec fn udp_of(buf: Seq<u8>, src: Seq<u8>, dst: Seq<u8>) -> Result<UdpFields, NetError> {
    if buf.len() < 8 {
        Err(NetError::Truncated)
    } else {
        let length = be16_at(buf, 4);
        if length < 8 || length > buf.len() {
            Err(NetError::Malformed)
        } else if be16_at(buf, 6) != 0 && udp_checksum(src, dst, buf.subrange(0, length as int))
            != 0 {
            Err(NetError::BadChecksum)
        } else {
            Ok(
                UdpFields {
                    src_port: be16_at(buf, 0),
                    dst_port: be16_at(buf, 2),
                    payload: buf.subrange(8, length as int),
                },
            )
        }
    }
}

/// The bytes of a datagram with the checksum `c`.
pub open spec fn udp_with(src_port: u16, dst_port: u16, c: u16, payload: Seq<u8>) -> Seq<u8> {
    be16(src_port) + be16(dst_port) + be16((8 + payload.len()) as u16) + be16(c) + payload
}

/// The bytes of a datagram. A computed checksum of 0 is transmitted as 0xFFFF.
pub open spec fn udp_bytes(
    src: Seq<u8>,
    dst: Seq<u8>,
    src_port: u16,
    dst_port: u16,
    payload: Seq<u8>,
) -> Seq<u8> {
    let c = udp_checksum(src, dst, udp_with(src_port, dst_port, 0, payload));
    udp_with(
        src_port,
        dst_port,
        if c == 0 {
            0xFFFF
        } else {
            c
        },
        payload,
    )
}

/// The IPv4 pseudo-header partial sum (src, dst, protocol, UDP length) for the UDP
/// checksum.
fn pseudo_header_sum(src: Ipv4Addr, dst: Ipv4Addr, udp_len: u16) -> (sum: u32)
    ensures
        sum == word_sum(pseudo_header(src@, dst@, udp_len)),
        sum <= 65535 * 6,
{
    let mut ph: Vec<u8> = Vec::new();
    push_bytes(&mut ph, &src.0);
    push_bytes(&mut ph, &dst.0);
    ph.push(0);
    ph.push(ip_proto::UDP);
    push_be16(&mut ph, udp_len);
    assert(ph@ =~= pseudo_header(src@, dst@, udp_len));
    proof {
        lemma_word_sum_bound(ph@);
    }
    checksum_accumulate(0, ph.as_slice())
}

/// The checksum of a datagram's bytes under its pseudo-header.
fn checksum_of(src: Ipv4Addr, dst: Ipv4Addr, bytes: &[u8]) -> (c: u16)
    requires
        bytes@.len() <= 65535,
    ensures
        c == udp_checksum(src@, dst@, bytes@),
{
    let sum: u32 = pseudo_header_sum(src, dst, bytes.len() as u16);
    proof {
        lemma_word_sum_bound(bytes@);
    }
    checksum_fold(checksum_accumulate(sum, bytes))
}

impl<'a> UdpDatagram<'a> {
    /// Parse a UDP datagram from `buf` (the L4 payload of an IPv4 packet).
    /// `src`/`dst` are the IPv4 addresses, needed to validate the checksum when
    /// present.
    pub fn parse(buf: &'a [u8], src: Ipv4Addr, dst: Ipv4Addr) -> (r: Result<
        UdpDatagram<'a>,
        NetError,
    >)
        ensures
            match r {
                Ok(d) => udp_of(buf@, src@, dst@) == Ok::<UdpFields, NetError>(d@),
                Err(e) => udp_of(buf@, src@, dst@) == Err::<UdpFields, NetError>(e),
            },
    {
        if buf.len() < UDP_HEADER_LEN {
            return Err(NetError::Truncated);
        }
        let length: usize = get_be16(buf, 4) as usize;
        if length < UDP_HEADER_LEN || length > buf.len() {
            return Err(NetError::Malformed);
        }
        if get_be16(buf, 6) != 0 {
            if checksum_of(src, dst, slice_subrange(buf, 0, length)) != 0 {
                return Err(NetError::BadChecksum);
            }
        }
        Ok(
            UdpDatagram {
                src_port: get_be16(buf, 0),
                dst_port: get_be16(buf, 2),
                payload: slice_subrange(buf, UDP_HEADER_LEN, length),
            },
        )
    }
}

/// Build a UDP datagram (header + payload) into `out`, computing the checksum over
/// the IPv4 pseudo-header. Returns the datagram length.
pub fn build(
    out: &mut [u8],
    src: Ipv4Addr,
    dst: Ipv4Addr,
    src_port: u16,
    dst_port: u16,
    payload: &[u8],
) -> (r: Result<usize, NetError>)
    ensures
        if old(out)@.len() < 8 + payload@.len() || 8 + payload@.len() > 65535 {
            &&& r == Err::<usize, NetError>(NetError::BufferTooSmall)
            &&& final(out)@ == old(out)@
        } else {
            &&& r == Ok::<usize, NetError>((8 + payload@.len()) as usize)
            &&& final(out)@ == overlaid(
                old(out)@,
                udp_bytes(src@, dst@, src_port, dst_port, payload@),
            )
        },
{
    if out.len() < UDP_HEADER_LEN || out.len() - UDP_HEADER_LEN < payload.len() || payload.len()
        > 65535 - UDP_HEADER_LEN {
        return Err(NetError::BufferTooSmall);
    }
    let total: usize = UDP_HEADER_LEN + payload.len();
    let mut d: Vec<u8> = Vec::new();
    push_be16(&mut d, src_port);
    push_be16(&mut d, dst_port);
    push_be16(&mut d, total as u16);
    push_be16(&mut d, 0);  // checksum placeholder
    push_bytes(&mut d, payload);
    assert(d@ =~= udp_with(src_port, dst_port, 0, payload@));
    let mut csum: u16 = checksum_of(src, dst, d.as_slice());
    // A computed checksum of 0 is transmitted as 0xFFFF (0 means "none").
    if csum == 0 {
        csum = 0xFFFF;
    }
    d[6] = (csum / 256) as u8;
    d[7] = (csum % 256) as u8;
    assert(d@ =~= udp_bytes(src@, dst@, src_port, dst_port, payload@));
    put_front(out, d.as_slice());
    Ok(total)
}

/// The words of a datagram with a checksum are those without it plus the checksum.
proof fn lemma_udp_words(src_port: u16, dst_port: u16, c: u16, payload: Seq<u8>)
    ensures
        word_sum(udp_with(src_port, dst_port, c, payload)) == word_sum(
            udp_with(src_port, dst_port, 0, payload),
        ) + c as nat,
{
    let front = be16(src_port) + be16(dst_port) + be16((8 + payload.len()) as u16);
    lemma_word_sum_concat(front, be16(c));
    lemma_word_sum_concat(front + be16(c), payload);
    lemma_word_sum_concat(front, be16(0));
    lemma_word_sum_concat(front + be16(0), payload);
    lemma_word_sum_be16(c);
    lemma_word_sum_be16(0);
}

/// A datagram that was built parses, under the same addresses, to the fields it
/// was built from; it always carries a checksum.
pub proof fn built_datagram_parses(
    src: Seq<u8>,
    dst: Seq<u8>,
    src_port: u16,
    dst_port: u16,
    payload: Seq<u8>,
)
    requires
        8 + payload.len() <= 65535,
    ensures
        udp_of(udp_bytes(src, dst, src_port, dst_port, payload), src, dst) == Ok::<
            UdpFields,
            NetError,
        >(UdpFields { src_port, dst_port, payload }),
        be16_at(udp_bytes(src, dst, src_port, dst_port, payload), 6) != 0,
{
    let b = udp_bytes(src, dst, src_port, dst_port, payload);
    let blank = udp_with(src_port, dst_port, 0, payload);
    let total = (8 + payload.len()) as u16;
    let c0 = udp_checksum(src, dst, blank);
    let c: u16 = if c0 == 0 {
        0xFFFF
    } else {
        c0
    };
    assert(b.len() == total);
    assert(blank.len() == total);
    lemma_be16(src_port, b, 0);
    lemma_be16(dst_port, b, 2);
    lemma_be16(total, b, 4);
    lemma_be16(c, b, 6);
    assert(b.subrange(0, total as int) =~= b);
    assert(b.subrange(8, total as int) =~= payload);
    lemma_udp_words(src_port, dst_port, c, payload);
    let sum = word_sum(pseudo_header(src, dst, total)) + word_sum(blank);
    lemma_checksum_fills(sum, c);
}

/// A datagram that carries a checksum is rejected once a single byte of its payload or
/// of its ports is changed.
pub proof fn changed_datagram_is_rejected(
    buf: Seq<u8>,
    src: Seq<u8>,
    dst: Seq<u8>,
    i: int,
    b: u8,
)
    requires
        udp_of(buf, src, dst) is Ok,
        be16_at(buf, 6) != 0,
        0 <= i < 4 || 8 <= i < be16_at(buf, 4),
        b != buf[i],
    ensures
        udp_of(buf.update(i, b), src, dst) == Err::<UdpFields, NetError>(NetError::BadChecksum),
{
    let changed = buf.update(i, b);
    let length = be16_at(buf, 4);
    let bytes = buf.subrange(0, length as int);
    assert(changed.subrange(0, length as int) =~= bytes.update(i, b));
    lemma_word_sum_update(bytes, i, b);
    let front = word_sum(pseudo_header(src, dst, length));
    if udp_checksum(src, dst, bytes.update(i, b)) == 0 {
        lemma_checks_apart(front + word_sum(bytes.update(i, b)), front + word_sum(bytes));
    }
}

/// Where the fields of a datagram stand: the source port in bytes 0 and 1, the
/// destination port in bytes 2 and 3, the length of header and payload in bytes 4 and
/// 5, each with the high byte first, and the payload from byte 8 on.
pub proof fn datagram_layout(
    src: Seq<u8>,
    dst: Seq<u8>,
    src_port: u16,
    dst_port: u16,
    payload: Seq<u8>,
)
    requires
        8 + payload.len() <= 65535,
    ensures
        ({
            let b = udp_bytes(src, dst, src_port, dst_port, payload);
            &&& b.len() == 8 + payload.len()
            &&& b[0] as int * 256 + b[1] as int == src_port
            &&& b[2] as int * 256 + b[3] as int == dst_port
            &&& b[4] as int * 256 + b[5] as int == 8 + payload.len()
            &&& forall|i: int| 0 <= i < payload.len() ==> #[trigger] b[8 + i] == payload[i]
        }),
{
    let b = udp_bytes(src, dst, src_port, dst_port, payload);
    assert forall|i: int| 0 <= i < payload.len() implies #[trigger] b[8 + i] == payload[i] by {}
}

/// What a parse gives is what stands in the bytes: the word at 0 is the source port,
/// the word at 2 the destination port, and the payload reaches from byte 8 to the end
/// that the word at 4 gives.
pub proof fn parse_reads_the_fields_in_place(buf: Seq<u8>, src: Seq<u8>, dst: Seq<u8>)
    requires
        udp_of(buf, src, dst) is Ok,
    ensures
        ({
            let d = udp_of(buf, src, dst)->Ok_0;
            let length = buf[4] as int * 256 + buf[5] as int;
            &&& 8 <= length <= buf.len()
            &&& d.src_port == buf[0] as int * 256 + buf[1] as int
            &&& d.dst_port == buf[2] as int * 256 + buf[3] as int
            &&& d.payload.len() == length - 8
            &&& forall|i: int| 8 <= i < length ==> d.payload[i - 8] == #[trigger] buf[i]
        }),
{
}

/// When a datagram is refused: too short for a header; a length that is shorter than
/// the header or runs past the bytes; otherwise only a checksum that is there and
/// wrong. Bytes behind the length that the header gives do not matter.
pub proof fn parse_refuses_only_the_damaged(buf: Seq<u8>, src: Seq<u8>, dst: Seq<u8>)
    ensures
        buf.len() < 8 <==> udp_of(buf, src, dst) == Err::<UdpFields, NetError>(NetError::Truncated),
        buf.len() >= 8 ==> {
            let length = buf[4] as int * 256 + buf[5] as int;
            &&& udp_of(buf, src, dst) == Err::<UdpFields, NetError>(NetError::Malformed) <==> (
            length < 8 || length > buf.len())
            &&& buf[6] == 0 && buf[7] == 0 && 8 <= length <= buf.len() ==> udp_of(
                buf,
                src,
                dst,
            ) is Ok
        },
        forall|more: Seq<u8>|
            #![trigger buf + more]
            udp_of(buf, src, dst) is Ok ==> udp_of(buf + more, src, dst) == udp_of(buf, src, dst),
{
    assert forall|more: Seq<u8>|
        #![trigger buf + more]
        udp_of(buf, src, dst) is Ok implies udp_of(buf + more, src, dst) == udp_of(
        buf,
        src,
        dst,
    ) by {
        let length = be16_at(buf, 4);
        assert((buf + more).subrange(0, length as int) =~= buf.subrange(0, length as int));
        assert((buf + more).subrange(8, length as int) =~= buf.subrange(8, length as int));
    }
}

/// The checksum covers both addresses, the protocol number 17 and the length, each
/// once, beside the datagram itself: together with the checksum field their words make
/// a multiple of 65535.
pub proof fn checksum_covers_addresses_and_length(
    src: Seq<u8>,
    dst: Seq<u8>,
    src_port: u16,
    dst_port: u16,
    payload: Seq<u8>,
)
    requires
        src.len() == 4,
        dst.len() == 4,
        8 + payload.len() <= 65535,
    ensures
        ({
            let b = udp_bytes(src, dst, src_port, dst_port, payload);
            let addresses = src[0] as int * 256 + src[1] + src[2] as int * 256 + src[3]
                + dst[0] as int * 256 + dst[1] + dst[2] as int * 256 + dst[3];
            (addresses + 17 + b.len() + word_sum(b)) % 65535 == 0
        }),
{
    let b = udp_bytes(src, dst, src_port, dst_port, payload);
    let total = (8 + payload.len()) as u16;
    built_datagram_parses(src, dst, src_port, dst_port, payload);
    lemma_be16(total, b, 4);
    assert(b.subrange(0, total as int) =~= b);
    let ph = pseudo_header(src, dst, total);
    reveal_with_fuel(word_sum, 7);
    assert(ph.len() == 12);
    let p2 = ph.subrange(2, 12);
    let p4 = p2.subrange(2, 10);
    let p6 = p4.subrange(2, 8);
    let p8 = p6.subrange(2, 6);
    let p10 = p8.subrange(2, 4);
    assert(p10.subrange(2, 2) =~= Seq::<u8>::empty());
    assert(word_sum(p10) == total as int);
    assert(word_sum(p8) == 17 + total as int);
    let s = word_sum(ph) + word_sum(b);
    assert(folded(s) == 0);
    assert((s - 1) % 65535 == 65534);
}

/// What a call of [`build`] leaves in the buffer, byte by byte: the ports in the order
/// source, destination, then the length, a checksum, the payload, and behind it what was
/// there. It succeeds exactly where header and payload fit, in the buffer and in 65535
/// bytes; else the buffer is untouched.
pub proof fn build_writes_the_datagram(
    out: &mut [u8],
    src: Ipv4Addr,
    dst: Ipv4Addr,
    src_port: u16,
    dst_port: u16,
    payload: &[u8],
    r: Result<usize, NetError>,
)
    requires
        call_ensures(build, (out, src, dst, src_port, dst_port, payload), r),
    ensures
        r is Ok <==> 8 + payload@.len() <= old(out)@.len() && 8 + payload@.len() <= 65535,
        r matches Err(e) ==> e is BufferTooSmall && final(out)@ == old(out)@,
        r matches Ok(n) ==> {
            let b = final(out)@;
            &&& n == 8 + payload@.len()
            &&& b.len() == old(out)@.len()
            &&& b[0] as int * 256 + b[1] as int == src_port
            &&& b[2] as int * 256 + b[3] as int == dst_port
            &&& b[4] as int * 256 + b[5] as int == n
            &&& b[6] != 0 || b[7] != 0
            &&& forall|i: int| 8 <= i < n ==> #[trigger] b[i] == payload@[i - 8]
            &&& forall|i: int| n <= i < b.len() ==> #[trigger] b[i] == old(out)@[i]
        },
{
    if r is Ok {
        let d = udp_bytes(src@, dst@, src_port, dst_port, payload@);
        datagram_layout(src@, dst@, src_port, dst_port, payload@);
        built_datagram_parses(src@, dst@, src_port, dst_port, payload@);
        let b = final(out)@;
        assert forall|i: int| 8 <= i < 8 + payload@.len() implies #[trigger] b[i]
            == payload@[i - 8] by {
            assert(d[8 + (i - 8)] == payload@[i - 8]);
        }
    }
}

/// A datagram that one side builds reaches the other side's parse with the ports and the
/// payload that it was built with, sent between the same two addresses; the destination
/// reads its own port as the destination's.
pub proof fn datagram_arrives(
    out: &mut [u8],
    src: Ipv4Addr,
    dst: Ipv4Addr,
    src_port: u16,
    dst_port: u16,
    payload: &[u8],
    n: usize,
    wire: &[u8],
    got: Result<UdpDatagram, NetError>,
)
    requires
        call_ensures(build, (out, src, dst, src_port, dst_port, payload), Ok(n)),
        wire@ == final(out)@.subrange(0, n as int),
        call_ensures(UdpDatagram::parse, (wire, src, dst), got),
    ensures
        got matches Ok(d) && d.src_port == src_port && d.dst_port == dst_port && d.payload@
            == payload@,
{
    let d = udp_bytes(src@, dst@, src_port, dst_port, payload@);
    datagram_layout(src@, dst@, src_port, dst_port, payload@);
    assert(wire@ =~= d);
    built_datagram_parses(src@, dst@, src_port, dst_port, payload@);
}

} // verus!
