//! Big-endian words and bounded writes.
use vstd::prelude::*;

verus! {

/// The two bytes of a big-endian u16.
pub open spec fn be16(x: u16) -> Seq<u8> {
    seq![(x / 256) as u8, (x % 256) as u8]
}

/// The big-endian u16 at `off`.
pub open spec fn be16_at(s: Seq<u8>, off: int) -> u16 {
    (s[off] * 256 + s[off + 1]) as u16
}

/// A big-endian u16 reads back.
pub proof fn lemma_be16(x: u16, s: Seq<u8>, off: int)
    requires
        0 <= off,
        off + 2 <= s.len(),
        s[off] == be16(x)[0],
        s[off + 1] == be16(x)[1],
    ensures
        be16_at(s, off) == x,
{
}

/// Read the big-endian u16 at `off`.
pub fn get_be16(buf: &[u8], off: usize) -> (x: u16)
    requires
        off + 2 <= buf.len(),
    ensures
        x == be16_at(buf@, off as int),
{
    buf[off] as u16 * 256 + buf[off + 1] as u16
}

/// Append a big-endian u16.
pub fn push_be16(out: &mut Vec<u8>, x: u16)
    ensures
        final(out)@ == old(out)@ + be16(x),
{
    out.push((x / 256) as u8);
    out.push((x % 256) as u8);
    assert(out@ =~= old(out)@ + be16(x));
}

/// Append bytes.
pub fn push_bytes(out: &mut Vec<u8>, src: &[u8])
    ensures
        final(out)@ == old(out)@ + src@,
{
    let mut copy: Vec<u8> = vstd::slice::slice_to_vec(src);
    out.append(&mut copy);
}

/// `s` with its first bytes replaced by `head`.
pub open spec fn overlaid(s: Seq<u8>, head: Seq<u8>) -> Seq<u8> {
    head + s.subrange(head.len() as int, s.len() as int)
}

/// Write `src` at the start of `out`.
pub fn put_front(out: &mut [u8], src: &[u8])
    requires
        src@.len() <= old(out)@.len(),
    ensures
        final(out)@ == overlaid(old(out)@, src@),
{
    let n: usize = src.len();
    let mut i: usize = 0;
    let ghost before = out@;
    while i < n
        invariant
            i <= n,
            n == src@.len(),
            n <= out@.len(),
            out@.len() == before.len(),
            forall|j: int| 0 <= j < i ==> out@[j] == src@[j],
            forall|j: int| i <= j < out@.len() ==> out@[j] == before[j],
        decreases n - i,
    {
        out[i] = src[i];
        i = i + 1;
    }
    assert(out@ =~= overlaid(before, src@));
}

/// The six bytes at `off`.
pub fn get_mac(buf: &[u8], off: usize) -> (mac: [u8; 6])
    requires
        off + 6 <= buf.len(),
    ensures
        mac@ == buf@.subrange(off as int, off + 6),
{
    let mac: [u8; 6] = [
        buf[off],
        buf[off + 1],
        buf[off + 2],
        buf[off + 3],
        buf[off + 4],
        buf[off + 5],
    ];
    assert(mac@ =~= buf@.subrange(off as int, off + 6));
    mac
}

/// The four bytes at `off`.
pub fn get_ip(buf: &[u8], off: usize) -> (ip: [u8; 4])
    requires
        off + 4 <= buf.len(),
    ensures
        ip@ == buf@.subrange(off as int, off + 4),
{
    let ip: [u8; 4] = [buf[off], buf[off + 1], buf[off + 2], buf[off + 3]];
    assert(ip@ =~= buf@.subrange(off as int, off + 4));
    ip
}

/// The two bytes of a big-endian word stand with the high byte first, and no other
/// two bytes give the word.
pub proof fn high_byte_comes_first(x: u16)
    ensures
        be16(x).len() == 2,
        be16(x)[0] as int * 256 + be16(x)[1] as int == x,
        forall|s: Seq<u8>, off: int|
            0 <= off && off + 2 <= s.len() ==> (#[trigger] be16_at(s, off) == x <==> s[off] as int
                * 256 + s[off + 1] as int == x),
{
}

/// Bytes written at the front stand there, and every byte behind them is as it was.
pub proof fn front_is_written_and_the_rest_kept(s: Seq<u8>, head: Seq<u8>)
    requires
        head.len() <= s.len(),
    ensures
        overlaid(s, head).len() == s.len(),
        forall|i: int| 0 <= i < head.len() ==> #[trigger] overlaid(s, head)[i] == head[i],
        forall|i: int| head.len() <= i < s.len() ==> #[trigger] overlaid(s, head)[i] == s[i],
{
}

} // verus!
