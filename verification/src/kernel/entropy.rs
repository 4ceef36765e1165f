//! Kernel CSPRNG.
//!
//! A deterministic, seed-driven pseudo-random generator used by the
//! weighted-entropy selector: a hash-counter construction in which each 32-byte
//! output block is `SHA-256(key || counter)`. Identical seeds produce identical
//! streams.
use sha2::Digest;
use vstd::arithmetic::div_mod::{
    lemma_div_multiples_vanish, lemma_fundamental_div_mod, lemma_fundamental_div_mod_converse,
    lemma_mod_multiples_basic,
};
use vstd::prelude::*;
use crate::kernel::bytes::{
    get_le64, le64_at, le64_bytes, le64_is_little_endian, le_value, lemma_le64,
    lemma_le_value_bound, lemma_pow256, push_le64, word_le,
};

verus! {

/// The SHA-256 digest of `data`.
pub uninterp spec fn sha256_of(data: Seq<u8>) -> Seq<u8>;

/// `sha2::Sha256::digest`: the digest of `data`, a function of the bytes alone. Its
/// count of bits has room for every slice of this length.
#[verifier::external_body]
fn sha256(data: &[u8]) -> (d: [u8; 32])
    requires
        data@.len() <= 0xffff_ffff,
    ensures
        d@ == sha256_of(data@),
{
    sha2::Sha256::digest(data).into()
}

/// Block `k` of the stream of `key`. The counter wraps after 2^64 blocks.
pub open spec fn stream_block(key: Seq<u8>, k: nat) -> Seq<u8> {
    sha256_of(key + le64_bytes((k % 0x1_0000_0000_0000_0000) as u64))
}

/// Byte `n` of the stream of `key`.
pub open spec fn stream_byte(key: Seq<u8>, n: nat) -> u8 {
    stream_block(key, n / 32)[(n % 32) as int]
}

/// `len` bytes of the stream of `key`, from byte `at` on.
pub open spec fn stream_bytes(key: Seq<u8>, at: nat, len: nat) -> Seq<u8> {
    Seq::new(len, |i: int| stream_byte(key, (at + i) as nat))
}

/// The eight bytes of the stream from `at` on, as a little-endian number.
pub open spec fn stream_word(key: Seq<u8>, at: nat) -> u64 {
    le_value(stream_bytes(key, at, 8)) as u64
}

/// The words below this are an exact multiple of `bound`.
pub open spec fn sampling_zone(bound: u64) -> int {
    u64::MAX - u64::MAX % bound
}

/// What a word gives below `bound`: its remainder, unless it is not below the zone.
pub open spec fn reduced(word: u64, bound: u64) -> Option<u64> {
    if word < sampling_zone(bound) {
        Some(word % bound)
    } else {
        None
    }
}

/// The number below `bound` that is drawn from byte `at` on, and where the stream
/// stands then: the first word below the sampling zone counts, after at most
/// `tries` others.
pub open spec fn bounded_draw(key: Seq<u8>, at: nat, bound: u64, tries: nat) -> (u64, nat)
    decreases tries,
{
    let word = stream_word(key, at);
    match reduced(word, bound) {
        Some(v) => (v, at + 8),
        None => if tries == 0 {
            (word % bound, at + 8)
        } else {
            bounded_draw(key, at + 8, bound, (tries - 1) as nat)
        },
    }
}

/// The number below `bound` that `word` gives. Words in the final, short interval are
/// rejected, so that the remaining range is an exact multiple of `bound`.
pub fn reduce_word(word: u64, bound: u64) -> (r: Option<u64>)
    requires
        bound > 0,
    ensures
        r == reduced(word, bound),
{
    let zone: u64 = 0xffff_ffff_ffff_ffff - 0xffff_ffff_ffff_ffff % bound;
    if word < zone {
        Some(word % bound)
    } else {
        None
    }
}

/// The reduction is uniform: the words that give `v` are one in each of the runs of
/// `bound` words that make up the zone, for every `v` alike.
pub proof fn reduction_is_uniform(bound: u64, v: u64)
    requires
        v < bound,
    ensures
        sampling_zone(bound) % (bound as int) == 0,
        forall|k: int|
            0 <= k < sampling_zone(bound) / (bound as int) ==> 0 <= #[trigger] (k * bound) + v
                < sampling_zone(bound) && reduced((k * bound + v) as u64, bound) == Some(v),
        forall|word: u64| #[trigger]
            reduced(word, bound) == Some(v) ==> word == (word as int / bound as int) * bound + v
                && word as int / (bound as int) < sampling_zone(bound) / (bound as int),
{
    let zone = sampling_zone(bound);
    let b = bound as int;
    let max = u64::MAX as int;
    let runs = max / b;
    lemma_fundamental_div_mod(max, b);
    assert(zone == runs * b) by (nonlinear_arith)
        requires
            zone == max - max % b,
            max == b * runs + max % b,
    ;
    lemma_mod_multiples_basic(runs, b);
    lemma_div_multiples_vanish(runs, b);
    assert forall|k: int| 0 <= k < zone / b implies 0 <= #[trigger] (k * bound) + v < zone
        && reduced((k * bound + v) as u64, bound) == Some(v) by {
        assert(0 <= k * b && k * b + b <= runs * b) by (nonlinear_arith)
            requires
                0 <= k < runs,
                b > 0,
        ;
        lemma_fundamental_div_mod_converse(k * b + v, b, k, v as int);
    }
    assert forall|word: u64| #[trigger] reduced(word, bound) == Some(v) implies word == (
    word as int / b) * bound + v && word as int / b < zone / b by {
        let w = word as int;
        lemma_fundamental_div_mod(w, b);
        let q = w / b;
        assert(w == q * b + v) by (nonlinear_arith)
            requires
                w == b * q + w % b,
                w % b == v,
        ;
        assert(q < runs) by (nonlinear_arith)
            requires
                w == q * b + v,
                0 <= v,
                w < runs * b,
                b > 0,
        ;
    }
}

/// Words that can be rejected in a row: all but one of the 2^66 words after which the
/// stream repeats. Where as many were rejected and the next one is not below the
/// zone either, no word of the stream ever is.
pub const MAX_REJECTIONS: u128 = 0x3_ffff_ffff_ffff_ffff;

/// The `k`-th word of the stream from byte `at` on is below the sampling zone.
pub open spec fn accepted(key: Seq<u8>, at: nat, bound: u64, k: nat) -> bool {
    reduced(stream_word(key, at + 8 * k), bound) is Some
}

/// The `k`-th word from byte `at` on is the first below the sampling zone.
pub open spec fn first_accepted(key: Seq<u8>, at: nat, bound: u64, k: nat) -> bool {
    accepted(key, at, bound, k) && forall|j: nat| j < k ==> !#[trigger] accepted(key, at, bound, j)
}

/// The stream repeats after 2^66 words.
pub proof fn stream_repeats(key: Seq<u8>, at: nat)
    ensures
        stream_word(key, at + 0x20_0000_0000_0000_0000) == stream_word(key, at),
{
    let period = 0x20_0000_0000_0000_0000nat;
    assert forall|i: int| 0 <= i < 8 implies stream_byte(key, (at + period + i) as nat)
        == #[trigger] stream_byte(key, (at + i) as nat) by {
        let n = (at + i) as nat;
        let unit = 0x1_0000_0000_0000_0000int;
        assert((n + period) / 32 == n / 32 + unit);
        assert((n + period) % 32 == n % 32);
        assert((n as int / 32 + unit) % unit == (n as int / 32) % unit);
    }
    assert(stream_bytes(key, at + period, 8) =~= stream_bytes(key, at, 8));
}

/// Where any word of the stream is below the zone, one of the next 2^66 is.
proof fn lemma_accepted_within(key: Seq<u8>, at: nat, bound: u64, k: nat) -> (j: nat)
    requires
        accepted(key, at, bound, k),
    ensures
        j <= k,
        j <= MAX_REJECTIONS,
        accepted(key, at, bound, j),
    decreases k,
{
    if k <= MAX_REJECTIONS {
        k
    } else {
        let back = (k - 0x4_0000_0000_0000_0000) as nat;
        stream_repeats(key, at + 8 * back);
        lemma_accepted_within(key, at, bound, back)
    }
}

/// The first of the words up to the `k`-th that is below the zone.
proof fn lemma_first(key: Seq<u8>, at: nat, bound: u64, k: nat) -> (j: nat)
    requires
        accepted(key, at, bound, k),
    ensures
        j <= k,
        first_accepted(key, at, bound, j),
    decreases k,
{
    if exists|i: nat| i < k && #[trigger] accepted(key, at, bound, i) {
        let i = choose|i: nat| i < k && #[trigger] accepted(key, at, bound, i);
        lemma_first(key, at, bound, i)
    } else {
        k
    }
}

/// A draw comes to the first word below the zone.
proof fn lemma_draw(key: Seq<u8>, at: nat, bound: u64, tries: nat, k: nat)
    requires
        first_accepted(key, at, bound, k),
        k <= tries,
    ensures
        bounded_draw(key, at, bound, tries) == (
            stream_word(key, at + 8 * k) % bound,
            at + 8 * k + 8,
        ),
    decreases k,
{
    if k > 0 {
        assert(!accepted(key, at, bound, 0));
        assert(accepted(key, at + 8, bound, (k - 1) as nat));
        assert forall|j: nat| j < k - 1 implies !#[trigger] accepted(key, at + 8, bound, j) by {
            assert(!accepted(key, at, bound, j + 1));
        }
        lemma_draw(key, at + 8, bound, (tries - 1) as nat, (k - 1) as nat);
    }
}

/// `v` comes of the first word from byte `at` on that is below the sampling zone, and
/// the stream stands at `end` behind it; unless none of all the words to come is.
pub open spec fn first_draw(key: Seq<u8>, at: nat, bound: u64, v: u64, end: nat) -> bool {
    forall|k: nat| #[trigger]
        accepted(key, at, bound, k) ==> exists|j: nat|
            {
                &&& j <= k
                &&& #[trigger] first_accepted(key, at, bound, j)
                &&& v == stream_word(key, at + 8 * j) % bound
                &&& end == at + 8 * j + 8
            }
}

/// A draw takes the first word below the sampling zone, however many come before it.
pub proof fn draw_takes_the_first_accepted(key: Seq<u8>, at: nat, bound: u64)
    ensures
        ({
            let (v, end) = bounded_draw(key, at, bound, MAX_REJECTIONS as nat);
            first_draw(key, at, bound, v, end)
        }),
{
    let (v, end) = bounded_draw(key, at, bound, MAX_REJECTIONS as nat);
    assert forall|k: nat| #[trigger] accepted(key, at, bound, k) implies exists|j: nat|
        {
            &&& j <= k
            &&& #[trigger] first_accepted(key, at, bound, j)
            &&& v == stream_word(key, at + 8 * j) % bound
            &&& end == at + 8 * j + 8
        } by {
        let i = lemma_accepted_within(key, at, bound, k);
        let j = lemma_first(key, at, bound, i);
        lemma_draw(key, at, bound, MAX_REJECTIONS as nat, j);
    }
}

/// Where a generator stands: its key, and how many bytes it has produced.
pub ghost struct Stream {
    pub key: Seq<u8>,
    pub at: nat,
}

/// A SHA-256 hash-counter pseudo-random generator.
pub struct Csprng {
    key: [u8; 32],
    counter: u64,
    block: [u8; 32],
    block_pos: usize,
    index: Ghost<nat>,
}

impl View for Csprng {
    type V = Stream;

    closed spec fn view(&self) -> Stream {
        Stream { key: self.key@, at: (32 * self.index@ + self.block_pos) as nat }
    }
}

impl Csprng {
    /// The buffered block is the current one of the stream.
    #[verifier::type_invariant]
    spec fn buffered(&self) -> bool {
        &&& self.block_pos <= 32
        &&& self.block@ == stream_block(self.key@, self.index@)
        &&& self.counter == (self.index@ + 1) % 0x1_0000_0000_0000_0000
    }

    /// Block `counter` of the stream of `key`.
    fn block_at(key: &[u8; 32], counter: u64) -> (block: [u8; 32])
        ensures
            block@ == stream_block(key@, counter as nat),
    {
        let mut input: Vec<u8> = vstd::slice::slice_to_vec(key.as_slice());
        push_le64(&mut input, counter);
        proof {
            lemma_le64(counter);
        }
        sha256(input.as_slice())
    }

    /// Seed the generator from a 32-byte seed (the handoff entropy seed).
    pub fn from_seed(seed: [u8; 32]) -> (rng: Csprng)
        ensures
            rng@ == (Stream { key: seed@, at: 0 }),
    {
        let block: [u8; 32] = Csprng::block_at(&seed, 0);
        Csprng { key: seed, counter: 1, block, block_pos: 0, index: Ghost(0) }
    }

    /// Produce the next byte of the stream.
    pub fn next_u8(&mut self) -> (b: u8)
        ensures
            b == stream_byte(old(self)@.key, old(self)@.at),
            final(self)@ == (Stream { at: old(self)@.at + 1, ..old(self)@ }),
    {
        proof {
            use_type_invariant(&*self);
        }
        if self.block_pos >= 32 {
            let key: [u8; 32] = self.key;
            let counter: u64 = self.counter;
            let block: [u8; 32] = Csprng::block_at(&key, counter);
            let ghost k = self.index@ + 1;
            let b: u8 = block[0];
            proof {
                assert(stream_block(key@, k) == stream_block(key@, counter as nat));
                assert((32 * k) / 32 == k && (32 * k) % 32 == 0);
            }
            *self = Csprng {
                key,
                counter: counter.wrapping_add(1),
                block,
                block_pos: 1,
                index: Ghost(k),
            };
            b
        } else {
            let b: u8 = self.block[self.block_pos];
            proof {
                let n = 32 * self.index@ + self.block_pos;
                assert(n / 32 == self.index@ && n % 32 == self.block_pos as int);
            }
            self.block_pos = self.block_pos + 1;
            b
        }
    }

    /// Fill `out` with stream bytes. Used by the `get_random` system call.
    pub fn fill_bytes(&mut self, out: &mut [u8])
        ensures
            final(out)@ == stream_bytes(old(self)@.key, old(self)@.at, old(out)@.len()),
            final(self)@ == (Stream { at: old(self)@.at + old(out)@.len(), ..old(self)@ }),
    {
        let n: usize = out.len();
        let mut i: usize = 0;
        while i < n
            invariant
                i <= n,
                n == out@.len(),
                n == old(out)@.len(),
                self@ == (Stream { at: old(self)@.at + i as nat, ..old(self)@ }),
                forall|j: int|
                    0 <= j < i ==> out@[j] == stream_byte(
                        old(self)@.key,
                        (old(self)@.at + j) as nat,
                    ),
            decreases n - i,
        {
            out[i] = self.next_u8();
            i = i + 1;
        }
        assert(out@ =~= stream_bytes(old(self)@.key, old(self)@.at, old(out)@.len()));
    }

    /// Produce the next `u64` of the stream (little-endian from 8 bytes).
    pub fn next_u64(&mut self) -> (v: u64)
        ensures
            v == stream_word(old(self)@.key, old(self)@.at),
            final(self)@ == (Stream { at: old(self)@.at + 8, ..old(self)@ }),
    {
        let mut bytes: Vec<u8> = vec![0u8;8usize];
        self.fill_bytes(bytes.as_mut_slice());
        assert(bytes@.subrange(0, 8) =~= bytes@);
        get_le64(bytes.as_slice(), 0)
    }

    /// Produce a value in `0..bound` (uniform via rejection sampling, so there is
    /// no modulo bias): the first word below the sampling zone counts, however many
    /// are rejected before it. A stream none of whose words is below the zone gives
    /// the last one tried, after [`MAX_REJECTIONS`] others.
    pub fn next_bounded(&mut self, bound: u64) -> (v: u64)
        requires
            bound > 0,
        ensures
            v < bound,
            ({
                let (want, at) = bounded_draw(
                    old(self)@.key,
                    old(self)@.at,
                    bound,
                    MAX_REJECTIONS as nat,
                );
                &&& v == want
                &&& final(self)@ == (Stream { at, ..old(self)@ })
            }),
            first_draw(old(self)@.key, old(self)@.at, bound, v, final(self)@.at),
    {
        proof {
            draw_takes_the_first_accepted(self@.key, self@.at, bound);
        }
        let mut tries: u128 = MAX_REJECTIONS;
        loop
            invariant
                bound > 0,
                self@.key == old(self)@.key,
                ({
                    let (want, at) = bounded_draw(
                        old(self)@.key,
                        old(self)@.at,
                        bound,
                        MAX_REJECTIONS as nat,
                    );
                    first_draw(old(self)@.key, old(self)@.at, bound, want, at)
                }),
                bounded_draw(old(self)@.key, old(self)@.at, bound, MAX_REJECTIONS as nat)
                    == bounded_draw(self@.key, self@.at, bound, tries as nat),
            decreases tries,
        {
            let word: u64 = self.next_u64();
            if let Some(v) = reduce_word(word, bound) {
                return v;
            }
            if tries == 0 {
                return word % bound;
            }
            tries = tries - 1;
        }
    }
}

/// A block of the stream is the digest of the key and the eight bytes of the block's number,
/// the low one first; byte by byte the stream is its blocks one behind the other.
pub proof fn stream_is_of_numbered_blocks(key: Seq<u8>, c: Seq<u8>, i: int)
    requires
        c.len() == 8,
        0 <= i < 32,
    ensures
        stream_byte(key, (32 * word_le(c, 0) + i) as nat) == sha256_of(key + c)[i],
{
    let k = word_le(c, 0);
    le64_is_little_endian(c, 0);
    assert(c.subrange(0, 8) =~= c);
    let x = le64_at(c, 0);
    assert(x == k);
    lemma_le64(x);
    lemma_pow256();
    lemma_le_value_bound(c);
    lemma_same_value(le64_bytes(x), c);
    assert((32 * k + i) / 32 == k && (32 * k + i) % 32 == i);
}

/// Bytes are told by the number that they make.
proof fn lemma_same_value(a: Seq<u8>, b: Seq<u8>)
    requires
        a.len() == b.len(),
        le_value(a) == le_value(b),
    ensures
        a == b,
    decreases a.len(),
{
    if a.len() > 0 {
        assert(a[0] == b[0]);
        lemma_same_value(a.drop_first(), b.drop_first());
        assert(a =~= seq![a[0]] + a.drop_first());
        assert(b =~= seq![b[0]] + b.drop_first());
    } else {
        assert(a =~= b);
    }
}

/// A generator hands its stream out once: from its seed on, in order, whether byte by byte,
/// in pieces or in words, whose low byte comes first. One that was seeded alike hands out
/// the same.
pub proof fn stream_goes_on_where_it_stood(
    seed: [u8; 32],
    fresh: Csprng,
    a: &mut Csprng,
    byte: u8,
    b: &mut Csprng,
    piece: &mut [u8],
    c: &mut Csprng,
    word: u64,
    d: &mut Csprng,
    eight: &mut [u8],
)
    requires
        call_ensures(Csprng::from_seed, (seed,), fresh),
        call_ensures(Csprng::next_u8, (a,), byte),
        old(b)@ == old(a)@,
        call_ensures(Csprng::fill_bytes, (b, piece), ()),
        old(c)@ == old(a)@ && old(d)@ == old(a)@,
        call_ensures(Csprng::next_u64, (c,), word),
        old(eight)@.len() == 8,
        call_ensures(Csprng::fill_bytes, (d, eight), ()),
    ensures
        fresh@.key == seed@ && fresh@.at == 0,
        final(a)@.key == old(a)@.key && final(a)@.at == old(a)@.at + 1,
        final(piece)@.len() == old(piece)@.len(),
        old(piece)@.len() > 0 ==> final(piece)@[0] == byte,
        forall|i: int|
            0 <= i < old(piece)@.len() ==> #[trigger] final(piece)@[i] == stream_byte(
                old(a)@.key,
                (old(a)@.at + i) as nat,
            ),
        final(b)@.at == old(a)@.at + old(piece)@.len(),
        word == word_le(final(eight)@, 0),
        final(c)@ == final(d)@,
        final(c)@.at == old(a)@.at + 8,
{
    let s = stream_bytes(old(a)@.key, old(a)@.at, 8);
    le64_is_little_endian(s, 0);
    assert(s.subrange(0, 8) =~= s);
    lemma_le_value_bound(s);
    lemma_pow256();
}

/// A word gives its remainder, and gives one exactly unless it lies in the last, short
/// interval behind the whole runs of `bound` words; then the bound divides what lies before.
pub proof fn words_are_reduced_evenly(word: u64, bound: u64, r: Option<u64>)
    requires
        bound > 0,
        call_ensures(reduce_word, (word, bound), r),
    ensures
        r matches Some(v) ==> v < bound && (word - v) % (bound as int) == 0,
        r is None ==> u64::MAX - word < bound,
        r is Some ==> word - word % bound + bound <= u64::MAX,
{
    let b = bound as int;
    let w = word as int;
    reduction_is_uniform(bound, (word % bound) as u64);
    lemma_fundamental_div_mod(w, b);
    lemma_fundamental_div_mod(u64::MAX as int, b);
    lemma_mod_multiples_basic(w / b, b);
    assert(w - w % b == (w / b) * b) by (nonlinear_arith)
        requires
            w == b * (w / b) + w % b,
    ;
    if r is Some {
        let q = w / b;
        let runs = sampling_zone(bound) / b;
        lemma_fundamental_div_mod(sampling_zone(bound), b);
        assert(q * b + b <= runs * b) by (nonlinear_arith)
            requires
                q < runs,
                b > 0,
        ;
        assert(runs * b == sampling_zone(bound)) by (nonlinear_arith)
            requires
                sampling_zone(bound) == b * runs + sampling_zone(bound) % b,
                sampling_zone(bound) % b == 0,
        ;
    }
}

} // verus!
