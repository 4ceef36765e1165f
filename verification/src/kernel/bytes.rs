//! Byte-buffer helpers shared by the on-disk and on-wire formats.
use vstd::prelude::*;

verus! {

/// `s` with the bytes from `off` on replaced by `src`.
pub open spec fn splice(s: Seq<u8>, off: int, src: Seq<u8>) -> Seq<u8> {
    Seq::new(
        s.len(),
        |i: int|
            if off <= i < off + src.len() {
                src[i - off]
            } else {
                s[i]
            },
    )
}

/// A run of `n` zero bytes.
pub open spec fn zeros(n: nat) -> Seq<u8> {
    Seq::new(n, |i: int| 0u8)
}

/// Copy `src` into `buf` at `off`.
pub fn put_bytes(buf: &mut Vec<u8>, off: usize, src: &[u8])
    requires
        off + src@.len() <= old(buf)@.len(),
    ensures
        final(buf)@ == splice(old(buf)@, off as int, src@),
{
    let n: usize = src.len();
    let limit: usize = buf.len();
    let mut i: usize = 0;
    while i < n
        invariant
            i <= n,
            n == src@.len(),
            off + n <= limit,
            limit == old(buf)@.len(),
            buf@ == splice(old(buf)@, off as int, src@.subrange(0, i as int)),
        decreases n - i,
    {
        buf[off + i] = src[i];
        i = i + 1;
        assert(buf@ =~= splice(old(buf)@, off as int, src@.subrange(0, i as int)));
    }
    assert(src@.subrange(0, n as int) =~= src@);
    assert(buf@ =~= splice(old(buf)@, off as int, src@));
}

/// 256 to the power `n`.
pub open spec fn pow256(n: nat) -> nat
    decreases n,
{
    if n == 0 {
        1
    } else {
        256 * pow256((n - 1) as nat)
    }
}

/// The `n` low bytes of `x`, least significant first.
pub open spec fn le_bytes(x: nat, n: nat) -> Seq<u8>
    decreases n,
{
    if n == 0 {
        Seq::empty()
    } else {
        seq![(x % 256) as u8] + le_bytes(x / 256, (n - 1) as nat)
    }
}

/// The number whose bytes are `s`, least significant first.
pub open spec fn le_value(s: Seq<u8>) -> nat
    decreases s.len(),
{
    if s.len() == 0 {
        0
    } else {
        s[0] as nat + 256 * le_value(s.drop_first())
    }
}

/// `n` bytes hold numbers below 256 to the power `n`.
pub proof fn lemma_le_value_bound(s: Seq<u8>)
    ensures
        le_value(s) < pow256(s.len()),
    decreases s.len(),
{
    if s.len() > 0 {
        lemma_le_value_bound(s.drop_first());
    }
}

/// A number that fits in `n` bytes is what those bytes stand for.
pub proof fn lemma_le_round_trip(x: nat, n: nat)
    requires
        x < pow256(n),
    ensures
        le_bytes(x, n).len() == n,
        le_value(le_bytes(x, n)) == x,
    decreases n,
{
    if n > 0 {
        assert(x / 256 < pow256((n - 1) as nat));
        lemma_le_round_trip(x / 256, (n - 1) as nat);
        assert(le_bytes(x, n).drop_first() =~= le_bytes(x / 256, (n - 1) as nat));
    }
}

/// `n` bytes are written for any number.
pub proof fn lemma_le_bytes_len(x: nat, n: nat)
    ensures
        le_bytes(x, n).len() == n,
    decreases n,
{
    if n > 0 {
        lemma_le_bytes_len(x / 256, (n - 1) as nat);
    }
}

/// Zero bytes stand for zero.
pub proof fn lemma_le_zero(s: Seq<u8>)
    requires
        forall|i: int| 0 <= i < s.len() ==> s[i] == 0,
    ensures
        le_value(s) == 0,
    decreases s.len(),
{
    if s.len() > 0 {
        lemma_le_zero(s.drop_first());
    }
}

/// How many numbers fit in 4 and in 8 bytes.
pub proof fn lemma_pow256()
    ensures
        pow256(1) == 0x100,
        pow256(2) == 0x1_0000,
        pow256(4) == 0x1_0000_0000,
        pow256(8) == 0x1_0000_0000_0000_0000,
{
    reveal_with_fuel(pow256, 9);
}

/// The little-endian u32 at `off`.
pub open spec fn le32_at(s: Seq<u8>, off: int) -> u32 {
    le_value(s.subrange(off, off + 4)) as u32
}

/// The little-endian u64 at `off`.
pub open spec fn le64_at(s: Seq<u8>, off: int) -> u64 {
    le_value(s.subrange(off, off + 8)) as u64
}

/// The four bytes of a u32, least significant first.
pub open spec fn le32_bytes(x: u32) -> Seq<u8> {
    le_bytes(x as nat, 4)
}

/// The eight bytes of a u64, least significant first.
pub open spec fn le64_bytes(x: u64) -> Seq<u8> {
    le_bytes(x as nat, 8)
}

/// A u32 is what its bytes stand for.
pub proof fn lemma_le32(x: u32)
    ensures
        le32_bytes(x).len() == 4,
        le_value(le32_bytes(x)) == x,
{
    lemma_pow256();
    lemma_le_round_trip(x as nat, 4);
}

/// A u64 is what its bytes stand for.
pub proof fn lemma_le64(x: u64)
    ensures
        le64_bytes(x).len() == 8,
        le_value(le64_bytes(x)) == x,
{
    lemma_pow256();
    lemma_le_round_trip(x as nat, 8);
}

/// Read `n` bytes at `off` as a little-endian number.
fn get_le(buf: &[u8], off: usize, n: usize) -> (x: u64)
    requires
        n <= 8,
        off + n <= buf.len(),
    ensures
        x == le_value(buf@.subrange(off as int, off + n)),
        x < pow256(n as nat),
{
    let ghost all = buf@.subrange(off as int, off + n);
    let mut i: usize = n;
    let mut x: u64 = 0;
    proof {
        lemma_pow256();
        assert(all.subrange(n as int, n as int) =~= Seq::<u8>::empty());
    }
    while i > 0
        invariant
            i <= n <= 8,
            off + n <= buf.len(),
            all == buf@.subrange(off as int, off + n),
            x == le_value(all.subrange(i as int, n as int)),
            pow256(8) == 0x1_0000_0000_0000_0000,
        decreases i,
    {
        i = i - 1;
        proof {
            let tail = all.subrange(i as int, n as int);
            assert(tail.drop_first() =~= all.subrange(i + 1, n as int));
            lemma_le_value_bound(tail);
            lemma_pow256_monotone(tail.len(), 8);
        }
        x = buf[off + i] as u64 + 256 * x;
    }
    assert(all.subrange(0, n as int) =~= all);
    proof {
        lemma_le_value_bound(all);
    }
    x
}

/// More bytes hold more numbers.
proof fn lemma_pow256_monotone(a: nat, b: nat)
    requires
        a <= b,
    ensures
        pow256(a) <= pow256(b),
    decreases b,
{
    if a < b {
        lemma_pow256_monotone(a, (b - 1) as nat);
    }
}

/// Append the `n` low bytes of `x`, least significant first.
fn push_le(out: &mut Vec<u8>, x: u64, n: usize)
    ensures
        final(out)@ == old(out)@ + le_bytes(x as nat, n as nat),
{
    let mut i: usize = 0;
    let mut rest: u64 = x;
    assert(out@ =~= out@ + Seq::<u8>::empty());
    while i < n
        invariant
            i <= n,
            old(out)@ + le_bytes(x as nat, n as nat) == out@ + le_bytes(
                rest as nat,
                (n - i) as nat,
            ),
        decreases n - i,
    {
        let ghost before = out@;
        out.push((rest % 256) as u8);
        assert(before + le_bytes(rest as nat, (n - i) as nat) =~= out@ + le_bytes(
            rest as nat / 256,
            (n - i - 1) as nat,
        ));
        rest = rest / 256;
        i = i + 1;
    }
    assert(out@ + le_bytes(rest as nat, 0) =~= out@);
}

/// Read the little-endian u32 at `off`.
pub fn get_le32(buf: &[u8], off: usize) -> (x: u32)
    requires
        off + 4 <= buf.len(),
    ensures
        x == le32_at(buf@, off as int),
{
    proof {
        lemma_pow256();
    }
    get_le(buf, off, 4) as u32
}

/// Read the little-endian u64 at `off`.
pub fn get_le64(buf: &[u8], off: usize) -> (x: u64)
    requires
        off + 8 <= buf.len(),
    ensures
        x == le64_at(buf@, off as int),
{
    get_le(buf, off, 8)
}

/// Append a little-endian u32.
pub fn push_le32(out: &mut Vec<u8>, x: u32)
    ensures
        final(out)@ == old(out)@ + le32_bytes(x),
{
    push_le(out, x as u64, 4);
}

/// Append a little-endian u64.
pub fn push_le64(out: &mut Vec<u8>, x: u64)
    ensures
        final(out)@ == old(out)@ + le64_bytes(x),
{
    push_le(out, x, 8);
}

/// The byte at place `i` of a list of bytes counts 256 to the power `i`.
proof fn lemma_le_step(s: Seq<u8>)
    requires
        s.len() > 0,
    ensures
        le_value(s) == s[0] as int + 256 * le_value(s.subrange(1, s.len() as int)),
{
    assert(s.drop_first() =~= s.subrange(1, s.len() as int));
}

/// The words that are read at `off` are little-endian: the first byte counts ones, and each
/// byte counts 256 times what the one before it counts.
pub proof fn le32_is_little_endian(s: Seq<u8>, off: int)
    requires
        0 <= off,
        off + 4 <= s.len(),
    ensures
        le32_at(s, off) == s[off] as int + s[off + 1] as int * 0x100 + s[off + 2] as int * 0x1_0000
            + s[off + 3] as int * 0x100_0000,
{
    let b = s.subrange(off, off + 4);
    let b1 = b.subrange(1, 4);
    let b2 = b1.subrange(1, 3);
    let b3 = b2.subrange(1, 2);
    lemma_le_step(b);
    lemma_le_step(b1);
    lemma_le_step(b2);
    lemma_le_step(b3);
    assert(le_value(b3.subrange(1, 1)) == 0);
}

/// As [`le32_is_little_endian`], of eight bytes.
pub proof fn le64_is_little_endian(s: Seq<u8>, off: int)
    requires
        0 <= off,
        off + 8 <= s.len(),
    ensures
        le64_at(s, off) == s[off] as int + s[off + 1] as int * 0x100 + s[off + 2] as int * 0x1_0000
            + s[off + 3] as int * 0x100_0000 + s[off + 4] as int * 0x1_0000_0000 + s[off + 5] as int
            * 0x100_0000_0000 + s[off + 6] as int * 0x1_0000_0000_0000 + s[off + 7] as int
            * 0x100_0000_0000_0000,
{
    let b = s.subrange(off, off + 8);
    let b1 = b.subrange(1, 8);
    let b2 = b1.subrange(1, 7);
    let b3 = b2.subrange(1, 6);
    let b4 = b3.subrange(1, 5);
    let b5 = b4.subrange(1, 4);
    let b6 = b5.subrange(1, 3);
    let b7 = b6.subrange(1, 2);
    lemma_le_step(b);
    lemma_le_step(b1);
    lemma_le_step(b2);
    lemma_le_step(b3);
    lemma_le_step(b4);
    lemma_le_step(b5);
    lemma_le_step(b6);
    lemma_le_step(b7);
    assert(le_value(b7.subrange(1, 1)) == 0);
}

/// The number that the eight bytes of `s` from `at` on stand for, each counting 256 times
/// what the one before it counts.
pub open spec fn word_le(s: Seq<u8>, at: int) -> int {
    s[at] as int + s[at + 1] as int * 0x100 + s[at + 2] as int * 0x1_0000 + s[at + 3] as int
        * 0x100_0000 + s[at + 4] as int * 0x1_0000_0000 + s[at + 5] as int * 0x100_0000_0000 + s[at
        + 6] as int * 0x1_0000_0000_0000 + s[at + 7] as int * 0x100_0000_0000_0000
}

/// As [`word_le`], of four bytes.
pub open spec fn half_le(s: Seq<u8>, at: int) -> int {
    s[at] as int + s[at + 1] as int * 0x100 + s[at + 2] as int * 0x1_0000 + s[at + 3] as int
        * 0x100_0000
}

/// Bytes spliced in stand where they were put, and every other byte is as it was.
pub proof fn splice_replaces_in_place(s: Seq<u8>, off: int, src: Seq<u8>, i: int)
    requires
        0 <= off,
        off + src.len() <= s.len(),
        0 <= i < s.len(),
    ensures
        splice(s, off, src).len() == s.len(),
        off <= i < off + src.len() ==> splice(s, off, src)[i] == src[i - off],
        i < off || off + src.len() <= i ==> splice(s, off, src)[i] == s[i],
{
}

} // verus!
