//! Ethernet II frame parse/build.
use vstd::prelude::*;
use vstd::slice::slice_subrange;
use crate::net::addr::{MacAddr, NetError};
use crate::net::wire::{
    be16, be16_at, front_is_written_and_the_rest_kept, get_be16, get_mac, lemma_be16, overlaid, push_be16, push_bytes, put_front,
};

verus! {

/// The fixed Ethernet II header length (dst 6 + src 6 + ethertype 2).
pub const ETH_HEADER_LEN: usize = 14;

/// A parsed view over an Ethernet II frame.
#[derive(Clone, Copy, Debug, PartialEq, Eq)]
pub struct EthFrame<'a> {
    pub dst: MacAddr,
    pub src: MacAddr,
    pub ethertype: u16,
    /// The payload following the 14-byte header.
    pub payload: &'a [u8],
}

/// The fields of an Ethernet II frame.
pub ghost struct EthFields {
    pub dst: Seq<u8>,
    pub src: Seq<u8>,
    pub ethertype: u16,
    pub payload: Seq<u8>,
}

impl<'a> View for EthFrame<'a> {
    type V = EthFields;

    open spec fn view(&self) -> EthFields {
        EthFields {
            dst: self.dst@,
            src: self.src@,
            ethertype: self.ethertype,
            payload: self.payload@,
        }
    }
}

/// What the bytes of a frame stand for.
pub open spec fn eth_of(buf: Seq<u8>) -> Result<EthFields, NetError> {
    if buf.len() < 14 {
        Err(NetError::Truncated)
    } else {
        Ok(
            EthFields {
                dst: buf.subrange(0, 6),
                src: buf.subrange(6, 12),
                ethertype: be16_at(buf, 12),
                payload: buf.subrange(14, buf.len() as int),
            },
        )
    }
}

/// The bytes of a frame.
pub open spec fn eth_bytes(dst: Seq<u8>, src: Seq<u8>, ethertype: u16, payload: Seq<u8>) -> Seq<u8> {
    dst + src + be16(ethertype) + payload
}

impl<'a> EthFrame<'a> {
    /// Parse an Ethernet II frame from `buf`.
    pub fn parse(buf: &'a [u8]) -> (r: Result<EthFrame<'a>, NetError>)
        ensures
            match r {
                Ok(f) => eth_of(buf@) == Ok::<EthFields, NetError>(f@),
                Err(e) => eth_of(buf@) == Err::<EthFields, NetError>(e),
            },
    {
        if buf.len() < ETH_HEADER_LEN {
            return Err(NetError::Truncated);
        }
        Ok(
            EthFrame {
                dst: get_mac(buf, 0),
                src: get_mac(buf, 6),
                ethertype: get_be16(buf, 12),
                payload: slice_subrange(buf, ETH_HEADER_LEN, buf.len()),
            },
        )
    }
}

/// Build an Ethernet II frame header + payload into `out`, returning the total
/// frame length written.
pub fn build(
    out: &mut [u8],
    dst: MacAddr,
    src: MacAddr,
    ethertype: u16,
    payload: &[u8],
) -> (r: Result<usize, NetError>)
    ensures
        if old(out)@.len() < 14 + payload@.len() {
            &&& r == Err::<usize, NetError>(NetError::BufferTooSmall)
            &&& final(out)@ == old(out)@
        } else {
            &&& r == Ok::<usize, NetError>((14 + payload@.len()) as usize)
            &&& final(out)@ == overlaid(
                old(out)@,
                eth_bytes(dst@, src@, ethertype, payload@),
            )
        },
{
    if out.len() < ETH_HEADER_LEN || out.len() - ETH_HEADER_LEN < payload.len() {
        return Err(NetError::BufferTooSmall);
    }
    let mut frame: Vec<u8> = Vec::new();
    push_bytes(&mut frame, &dst);
    push_bytes(&mut frame, &src);
    push_be16(&mut frame, ethertype);
    push_bytes(&mut frame, payload);
    assert(frame@ =~= eth_bytes(dst@, src@, ethertype, payload@));
    put_front(out, frame.as_slice());
    Ok(ETH_HEADER_LEN + payload.len())
}

/// A frame that was built parses to the fields it was built from.
pub proof fn built_frame_parses(dst: Seq<u8>, src: Seq<u8>, ethertype: u16, payload: Seq<u8>)
    requires
        dst.len() == 6,
        src.len() == 6,
    ensures
        eth_of(eth_bytes(dst, src, ethertype, payload)) == Ok::<EthFields, NetError>(
            EthFields { dst, src, ethertype, payload },
        ),
{
    let b = eth_bytes(dst, src, ethertype, payload);
    assert(b.subrange(0, 6) =~= dst);
    assert(b.subrange(6, 12) =~= src);
    assert(b.subrange(14, b.len() as int) =~= payload);
    lemma_be16(ethertype, b, 12);
}

/// Where the fields of a frame stand: the destination in bytes 0 to 5, the source in
/// bytes 6 to 11, the type in bytes 12 and 13 with the high byte first, and the payload
/// from byte 14 on.
pub proof fn frame_layout(dst: Seq<u8>, src: Seq<u8>, ethertype: u16, payload: Seq<u8>)
    requires
        dst.len() == 6,
        src.len() == 6,
    ensures
        ({
            let b = eth_bytes(dst, src, ethertype, payload);
            &&& b.len() == 14 + payload.len()
            &&& forall|i: int| 0 <= i < 6 ==> #[trigger] b[i] == dst[i]
            &&& forall|i: int| 0 <= i < 6 ==> #[trigger] b[6 + i] == src[i]
            &&& b[12] as int * 256 + b[13] as int == ethertype
            &&& forall|i: int| 0 <= i < payload.len() ==> #[trigger] b[14 + i] == payload[i]
        }),
{
}

/// Every frame of at least 14 bytes parses, to the fields that stand in its bytes, and
/// no shorter one does.
pub proof fn parse_reads_the_fields_in_place(buf: Seq<u8>)
    ensures
        buf.len() < 14 ==> eth_of(buf) == Err::<EthFields, NetError>(NetError::Truncated),
        buf.len() >= 14 ==> eth_of(buf) is Ok && {
            let f = eth_of(buf)->Ok_0;
            &&& f.dst.len() == 6
            &&& f.src.len() == 6
            &&& forall|i: int| 0 <= i < 6 ==> f.dst[i] == #[trigger] buf[i]
            &&& forall|i: int| 6 <= i < 12 ==> f.src[i - 6] == #[trigger] buf[i]
            &&& f.ethertype == buf[12] as int * 256 + buf[13] as int
            &&& f.payload.len() == buf.len() - 14
            &&& forall|i: int| 14 <= i < buf.len() ==> f.payload[i - 14] == #[trigger] buf[i]
        },
{
}

/// What a call of [`build`] leaves in the buffer, byte by byte: destination, source,
/// type, payload, and behind it what was there.
pub proof fn build_writes_the_frame(
    out: &mut [u8],
    dst: MacAddr,
    src: MacAddr,
    ethertype: u16,
    payload: &[u8],
    r: Result<usize, NetError>,
)
    requires
        call_ensures(build, (out, dst, src, ethertype, payload), r),
    ensures
        r is Ok <==> 14 + payload@.len() <= old(out)@.len(),
        r matches Err(e) ==> e is BufferTooSmall && final(out)@ == old(out)@,
        r matches Ok(n) ==> {
            let b = final(out)@;
            &&& n == 14 + payload@.len()
            &&& b.len() == old(out)@.len()
            &&& forall|i: int| 0 <= i < 6 ==> #[trigger] b[i] == dst@[i]
            &&& forall|i: int| 6 <= i < 12 ==> #[trigger] b[i] == src@[i - 6]
            &&& b[12] as int * 256 + b[13] as int == ethertype
            &&& forall|i: int| 14 <= i < n ==> #[trigger] b[i] == payload@[i - 14]
            &&& forall|i: int| n <= i < b.len() ==> #[trigger] b[i] == old(out)@[i]
        },
{
    if r is Ok {
        let d = eth_bytes(dst@, src@, ethertype, payload@);
        assert(old(out).len() == old(out)@.len());
        frame_layout(dst@, src@, ethertype, payload@);
        let b = final(out)@;
        front_is_written_and_the_rest_kept(old(out)@, d);
        assert forall|i: int| 0 <= i < 6 implies #[trigger] b[i] == dst@[i] by {
            assert(b[i] == d[i]);
        }
        assert(b[12] == d[12] && b[13] == d[13]);
        assert forall|i: int| 6 <= i < 12 implies #[trigger] b[i] == src@[i - 6] by {
            assert(d[6 + (i - 6)] == src@[i - 6]);
        }
        assert forall|i: int| 14 <= i < 14 + payload@.len() implies #[trigger] b[i]
            == payload@[i - 14] by {
            assert(d[14 + (i - 14)] == payload@[i - 14]);
        }
    }
}

/// What a call of [`EthFrame::parse`] gives for a frame is what stands in its bytes.
pub proof fn parse_gives_the_fields(buf: &[u8], r: Result<EthFrame, NetError>)
    requires
        call_ensures(EthFrame::parse, (buf,), r),
    ensures
        r is Ok <==> buf@.len() >= 14,
        r matches Err(e) ==> e is Truncated,
        r matches Ok(f) ==> {
            &&& forall|i: int| 0 <= i < 6 ==> #[trigger] f.dst@[i] == buf@[i]
            &&& forall|i: int| 0 <= i < 6 ==> #[trigger] f.src@[i] == buf@[6 + i]
            &&& f.ethertype == buf@[12] as int * 256 + buf@[13] as int
            &&& f.payload@ == buf@.subrange(14, buf@.len() as int)
        },
{
    if let Ok(f) = r {
        assert(f@.dst == buf@.subrange(0, 6));
        assert(f@.src == buf@.subrange(6, 12));
    }
}

} // verus!
