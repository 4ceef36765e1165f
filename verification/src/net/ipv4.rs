//! IPv4 header parse/build. Single-fragment datagrams only; options are not
//! emitted (IHL fixed at 5).
use vstd::prelude::*;
use vstd::slice::slice_subrange;
use crate::net::addr::{Ipv4Addr, NetError};
use crate::net::checksum::{
    changed_byte_is_detected, checksum, filled_checksum_is_zero, folded, word_sum,
};
use crate::net::wire::{
    be16, be16_at, get_be16, get_ip, lemma_be16, overlaid, push_be16, push_bytes, put_front,
};

verus! {

/// The minimum IPv4 header length (no options), 20 bytes.
pub const IPV4_HEADER_LEN: usize = 20;

/// A parsed IPv4 datagram view.
#[derive(Clone, Copy, Debug, PartialEq, Eq)]
pub struct Ipv4Packet<'a> {
    pub protocol: u8,
    pub src: Ipv4Addr,
    pub dst: Ipv4Addr,
    pub ttl: u8,
    /// The L4 payload following the header.
    pub payload: &'a [u8],
}

/// The fields of an IPv4 datagram.
pub ghost struct Ipv4Fields {
    pub protocol: u8,
    pub src: Seq<u8>,
    pub dst: Seq<u8>,
    pub ttl: u8,
    pub payload: Seq<u8>,
}

impl<'a> View for Ipv4Packet<'a> {
    type V = Ipv4Fields;

    open spec fn view(&self) -> Ipv4Fields {
        Ipv4Fields {
            protocol: self.protocol,
            src: self.src@,
            dst: self.dst@,
            ttl: self.ttl,
            payload: self.payload@,
        }
    }
}

/// What the bytes of a datagram stand for.
pub open spec fn ipv4_of(buf: Seq<u8>) -> Result<Ipv4Fields, NetError> {
    if buf.len() < 20 {
        Err(NetError::Truncated)
    } else {
        let version = buf[0] / 16;
        let ihl = (buf[0] % 16) * 4;
        let total_len = be16_at(buf, 2);
        if version != 4 || ihl < 20 || buf.len() < ihl {
            Err(NetError::Malformed)
        } else if total_len < ihl || total_len > buf.len() {
            Err(NetError::Malformed)
        } else if folded(word_sum(buf.subrange(0, ihl as int))) != 0 {
            Err(NetError::BadChecksum)
        } else {
            Ok(
                Ipv4Fields {
                    protocol: buf[9],
                    src: buf.subrange(12, 16),
                    dst: buf.subrange(16, 20),
                    ttl: buf[8],
                    payload: buf.subrange(ihl as int, total_len as int),
                },
            )
        }
    }
}

/// The header bytes before the checksum: version 4 and IHL 5, DSCP/ECN 0, total
/// length, identification, Don't-Fragment, time-to-live, protocol.
pub open spec fn header_front(total: u16, identification: u16, ttl: u8, protocol: u8) -> Seq<u8> {
    seq![0x45u8, 0u8] + be16(total) + be16(identification) + be16(0x4000) + seq![ttl, protocol]
}

/// The bytes of a header with the checksum `c`.
pub open spec fn header_with(
    src: Seq<u8>,
    dst: Seq<u8>,
    protocol: u8,
    ttl: u8,
    identification: u16,
    total: u16,
    c: u16,
) -> Seq<u8> {
    header_front(total, identification, ttl, protocol) + be16(c) + (src + dst)
}

/// The bytes of a datagram.
pub open spec fn ipv4_bytes(
    src: Seq<u8>,
    dst: Seq<u8>,
    protocol: u8,
    ttl: u8,
    identification: u16,
    payload: Seq<u8>,
) -> Seq<u8> {
    let total = (20 + payload.len()) as u16;
    let c = folded(word_sum(header_with(src, dst, protocol, ttl, identification, total, 0)));
    header_with(src, dst, protocol, ttl, identification, total, c) + payload
}

impl<'a> Ipv4Packet<'a> {
    /// Parse an IPv4 datagram from `buf`.
    pub fn parse(buf: &'a [u8]) -> (r: Result<Ipv4Packet<'a>, NetError>)
        ensures
            match r {
                Ok(p) => ipv4_of(buf@) == Ok::<Ipv4Fields, NetError>(p@),
                Err(e) => ipv4_of(buf@) == Err::<Ipv4Fields, NetError>(e),
            },
    {
        if buf.len() < IPV4_HEADER_LEN {
            return Err(NetError::Truncated);
        }
        let version: u8 = buf[0] / 16;
        let ihl: usize = (buf[0] % 16) as usize * 4;
        if version != 4 || ihl < IPV4_HEADER_LEN || buf.len() < ihl {
            return Err(NetError::Malformed);
        }
        let total_len: usize = get_be16(buf, 2) as usize;
        if total_len < ihl || total_len > buf.len() {
            return Err(NetError::Malformed);
        }
        // The header checksum covers the IHL bytes.
        if checksum(slice_subrange(buf, 0, ihl)) != 0 {
            return Err(NetError::BadChecksum);
        }
        Ok(
            Ipv4Packet {
                protocol: buf[9],
                src: Ipv4Addr(get_ip(buf, 12)),
                dst: Ipv4Addr(get_ip(buf, 16)),
                ttl: buf[8],
                payload: slice_subrange(buf, ihl, total_len),
            },
        )
    }
}

/// Build an IPv4 header (no options, IHL=5) for `payload` into `out`, returning the
/// total datagram length (header + payload). `identification` is the IP ID; `ttl`
/// the time-to-live; the Don't-Fragment flag is set.
pub fn build(
    out: &mut [u8],
    src: Ipv4Addr,
    dst: Ipv4Addr,
    protocol: u8,
    ttl: u8,
    identification: u16,
    payload: &[u8],
) -> (r: Result<usize, NetError>)
    ensures
        if old(out)@.len() < 20 + payload@.len() || 20 + payload@.len() > 65535 {
            &&& r == Err::<usize, NetError>(NetError::BufferTooSmall)
            &&& final(out)@ == old(out)@
        } else {
            &&& r == Ok::<usize, NetError>((20 + payload@.len()) as usize)
            &&& final(out)@ == overlaid(
                old(out)@,
                ipv4_bytes(src@, dst@, protocol, ttl, identification, payload@),
            )
        },
{
    if out.len() < IPV4_HEADER_LEN || out.len() - IPV4_HEADER_LEN < payload.len() || payload.len()
        > 65535 - IPV4_HEADER_LEN {
        return Err(NetError::BufferTooSmall);
    }
    let total: usize = IPV4_HEADER_LEN + payload.len();
    let mut head: Vec<u8> = Vec::new();
    head.push(0x45);  // version 4, IHL 5
    head.push(0);  // DSCP/ECN
    push_be16(&mut head, total as u16);
    push_be16(&mut head, identification);
    push_be16(&mut head, 0x4000);  // DF set, fragment offset 0
    head.push(ttl);
    head.push(protocol);
    push_be16(&mut head, 0);  // checksum placeholder
    push_bytes(&mut head, &src.0);
    push_bytes(&mut head, &dst.0);
    let ghost blank = header_with(src@, dst@, protocol, ttl, identification, total as u16, 0);
    assert(head@ =~= blank);
    let csum: u16 = checksum(head.as_slice());
    head[10] = (csum / 256) as u8;
    head[11] = (csum % 256) as u8;
    assert(head@ =~= header_with(src@, dst@, protocol, ttl, identification, total as u16, csum));
    push_bytes(&mut head, payload);
    assert(head@ =~= ipv4_bytes(src@, dst@, protocol, ttl, identification, payload@));
    put_front(out, head.as_slice());
    Ok(total)
}

/// A datagram that was built parses to the fields it was built from: in particular
/// its header checks to zero.
pub proof fn built_datagram_parses(
    src: Seq<u8>,
    dst: Seq<u8>,
    protocol: u8,
    ttl: u8,
    identification: u16,
    payload: Seq<u8>,
)
    requires
        src.len() == 4,
        dst.len() == 4,
        20 + payload.len() <= 65535,
    ensures
        ipv4_of(ipv4_bytes(src, dst, protocol, ttl, identification, payload)) == Ok::<
            Ipv4Fields,
            NetError,
        >(Ipv4Fields { protocol, src, dst, ttl, payload }),
{
    let total = (20 + payload.len()) as u16;
    let front = header_front(total, identification, ttl, protocol);
    let c = folded(word_sum(header_with(src, dst, protocol, ttl, identification, total, 0)));
    let head = header_with(src, dst, protocol, ttl, identification, total, c);
    let b = ipv4_bytes(src, dst, protocol, ttl, identification, payload);
    assert(front.len() == 10);
    assert(front + be16(0) + (src + dst) == header_with(
        src,
        dst,
        protocol,
        ttl,
        identification,
        total,
        0,
    ));
    filled_checksum_is_zero(front, src + dst, c);
    assert(b.subrange(0, 20) =~= head);
    assert(b[0] == 0x45);
    lemma_be16(total, b, 2);
    assert(b[8] == ttl && b[9] == protocol);
    assert(b.subrange(12, 16) =~= src);
    assert(b.subrange(16, 20) =~= dst);
    assert(b.subrange(20, total as int) =~= payload);
}

/// A header with a single byte changed after the first is rejected; unless it is one
/// of the length, for its checksum.
pub proof fn changed_header_is_rejected(buf: Seq<u8>, i: int, b: u8)
    requires
        ipv4_of(buf) is Ok,
        1 <= i < 20,
        b != buf[i],
    ensures
        ipv4_of(buf.update(i, b)) is Err,
        !(2 <= i < 4) ==> ipv4_of(buf.update(i, b)) == Err::<Ipv4Fields, NetError>(
            NetError::BadChecksum,
        ),
{
    let changed = buf.update(i, b);
    let ihl = (buf[0] % 16) * 4;
    let header = buf.subrange(0, ihl as int);
    assert(changed.subrange(0, ihl as int) =~= header.update(i, b));
    changed_byte_is_detected(header, i, b);
}

/// Where the fields of a datagram stand: version 4 and a header of 20 bytes in byte 0,
/// the whole length in bytes 2 and 3, the identification in bytes 4 and 5, the
/// Don't-Fragment flag alone in bytes 6 and 7, the time to live in byte 8, the protocol
/// in byte 9, the source in bytes 12 to 15, the destination in bytes 16 to 19, and the
/// payload from byte 20 on.
pub proof fn datagram_layout(
    src: Seq<u8>,
    dst: Seq<u8>,
    protocol: u8,
    ttl: u8,
    identification: u16,
    payload: Seq<u8>,
)
    requires
        src.len() == 4,
        dst.len() == 4,
        20 + payload.len() <= 65535,
    ensures
        ({
            let b = ipv4_bytes(src, dst, protocol, ttl, identification, payload);
            &&& b.len() == 20 + payload.len()
            &&& b[0] == 4 * 16 + 5 && b[1] == 0
            &&& b[2] as int * 256 + b[3] as int == 20 + payload.len()
            &&& b[4] as int * 256 + b[5] as int == identification
            &&& b[6] == 0x40 && b[7] == 0
            &&& b[8] == ttl && b[9] == protocol
            &&& forall|i: int| 12 <= i < 16 ==> #[trigger] b[i] == src[i - 12]
            &&& forall|i: int| 16 <= i < 20 ==> #[trigger] b[i] == dst[i - 16]
            &&& forall|i: int| 0 <= i < payload.len() ==> #[trigger] b[20 + i] == payload[i]
        }),
{
}

/// What a parse gives is what stands in the bytes, behind a header as long as byte 0
/// says; bytes behind the whole length do not matter.
pub proof fn parse_reads_the_fields_in_place(buf: Seq<u8>)
    ensures
        buf.len() < 20 <==> ipv4_of(buf) == Err::<Ipv4Fields, NetError>(NetError::Truncated),
        buf.len() >= 20 ==> {
            let header = (buf[0] as int % 16) * 4;
            let length = buf[2] as int * 256 + buf[3] as int;
            ipv4_of(buf) == Err::<Ipv4Fields, NetError>(NetError::Malformed) <==> (buf[0] as int
                / 16 != 4 || header < 20 || length < header || length > buf.len() || header
                > buf.len())
        },
        ipv4_of(buf) matches Ok(p) ==> {
            let header = (buf[0] as int % 16) * 4;
            let length = buf[2] as int * 256 + buf[3] as int;
            &&& p.ttl == buf[8]
            &&& p.protocol == buf[9]
            &&& p.src.len() == 4 && p.dst.len() == 4
            &&& forall|i: int| 12 <= i < 16 ==> p.src[i - 12] == #[trigger] buf[i]
            &&& forall|i: int| 16 <= i < 20 ==> p.dst[i - 16] == #[trigger] buf[i]
            &&& p.payload.len() == length - header
            &&& forall|i: int| header <= i < length ==> p.payload[i - header] == #[trigger] buf[i]
        },
        forall|more: Seq<u8>|
            #![trigger buf + more]
            ipv4_of(buf) is Ok ==> ipv4_of(buf + more) == ipv4_of(buf),
{
    assert forall|more: Seq<u8>|
        #![trigger buf + more]
        ipv4_of(buf) is Ok implies ipv4_of(buf + more) == ipv4_of(buf) by {
        let ihl = (buf[0] % 16) * 4;
        let total = be16_at(buf, 2);
        let b = buf + more;
        assert(b.subrange(0, ihl as int) =~= buf.subrange(0, ihl as int));
        assert(b.subrange(12, 16) =~= buf.subrange(12, 16));
        assert(b.subrange(16, 20) =~= buf.subrange(16, 20));
        assert(b.subrange(ihl as int, total as int) =~= buf.subrange(ihl as int, total as int));
    }
}

/// What a call of [`build`] leaves in the buffer, byte by byte.
pub proof fn build_writes_the_datagram(
    out: &mut [u8],
    src: Ipv4Addr,
    dst: Ipv4Addr,
    protocol: u8,
    ttl: u8,
    identification: u16,
    payload: &[u8],
    r: Result<usize, NetError>,
)
    requires
        call_ensures(build, (out, src, dst, protocol, ttl, identification, payload), r),
    ensures
        r is Ok <==> 20 + payload@.len() <= old(out)@.len() && 20 + payload@.len() <= 65535,
        r matches Err(e) ==> e is BufferTooSmall && final(out)@ == old(out)@,
        r matches Ok(n) ==> {
            let b = final(out)@;
            &&& n == 20 + payload@.len()
            &&& b.len() == old(out)@.len()
            &&& b[0] == 0x45
            &&& b[2] as int * 256 + b[3] as int == n
            &&& b[4] as int * 256 + b[5] as int == identification
            &&& b[6] == 0x40 && b[7] == 0
            &&& b[8] == ttl && b[9] == protocol
            &&& forall|i: int| 12 <= i < 16 ==> #[trigger] b[i] == src@[i - 12]
            &&& forall|i: int| 16 <= i < 20 ==> #[trigger] b[i] == dst@[i - 16]
            &&& forall|i: int| 20 <= i < n ==> #[trigger] b[i] == payload@[i - 20]
            &&& forall|i: int| n <= i < b.len() ==> #[trigger] b[i] == old(out)@[i]
        },
{
    if r is Ok {
        datagram_layout(src@, dst@, protocol, ttl, identification, payload@);
        let d = ipv4_bytes(src@, dst@, protocol, ttl, identification, payload@);
        let b = final(out)@;
        assert forall|i: int| 20 <= i < 20 + payload@.len() implies #[trigger] b[i]
            == payload@[i - 20] by {
            assert(d[20 + (i - 20)] == payload@[i - 20]);
        }
    }
}

/// A datagram that was built parses, behind whatever bytes follow it, to what it was
/// built from.
pub proof fn datagram_arrives(
    out: &mut [u8],
    src: Ipv4Addr,
    dst: Ipv4Addr,
    protocol: u8,
    ttl: u8,
    identification: u16,
    payload: &[u8],
    n: usize,
    wire: &[u8],
    got: Result<Ipv4Packet, NetError>,
)
    requires
        call_ensures(build, (out, src, dst, protocol, ttl, identification, payload), Ok(n)),
        wire@ == final(out)@,
        call_ensures(Ipv4Packet::parse, (wire,), got),
    ensures
        got matches Ok(p) && p.protocol == protocol && p.ttl == ttl && p.src@ == src@ && p.dst@
            == dst@ && p.payload@ == payload@,
{
    let d = ipv4_bytes(src@, dst@, protocol, ttl, identification, payload@);
    datagram_layout(src@, dst@, protocol, ttl, identification, payload@);
    built_datagram_parses(src@, dst@, protocol, ttl, identification, payload@);
    parse_reads_the_fields_in_place(d);
    let rest = old(out)@.subrange(d.len() as int, old(out)@.len() as int);
    assert(wire@ =~= d + rest);
}

} // verus!
