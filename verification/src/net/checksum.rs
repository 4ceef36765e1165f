//! The internet checksum.
use vstd::prelude::*;
use crate::net::wire::be16;

verus! {

/// The sum of the 16-bit big-endian words of `data`, an odd trailing byte being
/// padded with zero on the right.
pub open spec fn word_sum(data: Seq<u8>) -> nat
    decreases data.len(),
{
    if data.len() == 0 {
        0
    } else if data.len() == 1 {
        (data[0] * 256) as nat
    } else {
        (data[0] * 256 + data[1]) as nat + word_sum(data.subrange(2, data.len() as int))
    }
}

/// A sum with its carries folded back in: the representative of `sum` modulo 65535
/// that is zero for zero only.
pub open spec fn ones_sum(sum: nat) -> nat {
    if sum == 0 {
        0
    } else {
        ((sum - 1) % 65535 + 1) as nat
    }
}

/// The checksum of a sum: its one's complement.
pub open spec fn folded(sum: nat) -> u16 {
    (65535 - ones_sum(sum)) as u16
}

/// Folding a carry does not change the one's-complement sum.
proof fn lemma_fold_step(sum: nat)
    requires
        sum >= 65536,
    ensures
        ones_sum((sum % 65536 + sum / 65536) as nat) == ones_sum(sum),
        sum % 65536 + sum / 65536 < sum,
        sum % 65536 + sum / 65536 > 0,
{
    let next = sum % 65536 + sum / 65536;
    let q = sum / 65536;
    assert(next == sum - 65535 * q);
    assert((next - 1) % 65535 == (sum - 1) % 65535) by {
        vstd::arithmetic::div_mod::lemma_mod_multiples_vanish(-q as int, (sum - 1) as int, 65535);
        assert(65535 * (-q) + (sum - 1) == next - 1);
    }
}

/// Folding part of a sum early does not change the one's-complement sum.
proof fn lemma_fold_early(a: nat, b: nat)
    requires
        a >= 65536,
    ensures
        ones_sum((a % 65536 + a / 65536 + b) as nat) == ones_sum(a + b),
{
    let q = a / 65536;
    let next = a % 65536 + a / 65536 + b;
    assert(next == a + b - 65535 * q);
    assert(next > 0);
    assert((next - 1) % 65535 == (a + b - 1) % 65535) by {
        vstd::arithmetic::div_mod::lemma_mod_multiples_vanish(
            -q as int,
            (a + b - 1) as int,
            65535,
        );
        assert(65535 * (-q) + (a + b - 1) == next - 1);
    }
}

/// Words of a concatenation whose first part has whole words.
pub proof fn lemma_word_sum_concat(a: Seq<u8>, b: Seq<u8>)
    requires
        a.len() % 2 == 0,
    ensures
        word_sum(a + b) == word_sum(a) + word_sum(b),
    decreases a.len(),
{
    if a.len() == 0 {
        assert(a + b =~= b);
    } else {
        let rest = a.subrange(2, a.len() as int);
        assert((a + b).subrange(2, (a + b).len() as int) =~= rest + b);
        lemma_word_sum_concat(rest, b);
    }
}

/// A bound on the sum.
pub proof fn lemma_word_sum_bound(data: Seq<u8>)
    ensures
        word_sum(data) <= 65535 * ((data.len() + 1) / 2),
    decreases data.len(),
{
    if data.len() >= 2 {
        lemma_word_sum_bound(data.subrange(2, data.len() as int));
    }
}

/// The words of a big-endian u16 are itself.
pub proof fn lemma_word_sum_be16(x: u16)
    ensures
        word_sum(be16(x)) == x,
{
    reveal_with_fuel(word_sum, 2);
    assert(be16(x).subrange(2, 2) =~= Seq::<u8>::empty());
}

/// Data whose checksum field was zero checks to zero once the field holds the
/// checksum (or 65535 in place of zero).
pub proof fn lemma_checksum_fills(sum: nat, c: u16)
    requires
        c == folded(sum) || (folded(sum) == 0 && c == 0xFFFF),
    ensures
        folded(sum + c as nat) == 0,
{
    let o = ones_sum(sum);
    if sum > 0 {
        let q = (sum - 1) / 65535;
        assert(sum - 1 == 65535 * q + (sum - 1) % 65535);
        let k = if c == folded(sum) {
            q
        } else {
            q + 1
        };
        assert(sum + c - 1 == 65535 * k + 65534) by {
            if c != folded(sum) {
                assert(o == 65535);
            }
        }
        assert((sum + c - 1) % 65535 == 65534) by {
            vstd::arithmetic::div_mod::lemma_fundamental_div_mod_converse(
                (sum + c - 1) as int,
                65535,
                k as int,
                65534,
            );
        }
    }
}

/// The standard internet 16-bit one's-complement checksum over `data`. Carries are
/// folded in as they arise.
pub fn checksum(data: &[u8]) -> (c: u16)
    ensures
        c == folded(word_sum(data@)),
{
    let n: usize = data.len();
    let mut sum: u32 = 0;
    let mut i: usize = 0;
    assert(data@.subrange(0, n as int) =~= data@);
    while n - i >= 2
        invariant
            i <= n,
            n == data@.len(),
            sum < 65536,
            ones_sum(sum as nat + word_sum(data@.subrange(i as int, n as int))) == ones_sum(
                word_sum(data@),
            ),
        decreases n - i,
    {
        let ghost rest = data@.subrange(i as int, n as int);
        assert(rest.subrange(2, rest.len() as int) =~= data@.subrange(i + 2, n as int));
        let ghost tail = word_sum(data@.subrange(i + 2, n as int));
        let word: u32 = data[i] as u32 * 256 + data[i + 1] as u32;
        let total: u32 = sum + word;
        if total >= 65536 {
            proof {
                lemma_fold_early(total as nat, tail);
            }
            sum = total % 65536 + total / 65536;
        } else {
            sum = total;
        }
        i = i + 2;
    }
    let ghost rest = data@.subrange(i as int, n as int);
    if i < n {
        let total: u32 = sum + data[i] as u32 * 256;
        sum = total;
    }
    checksum_fold(sum)
}

/// Continue an in-progress checksum accumulation (for pseudo-headers). Returns the
/// running 32-bit sum; finalize with [`checksum_fold`].
pub fn checksum_accumulate(sum: u32, data: &[u8]) -> (r: u32)
    requires
        sum + word_sum(data@) <= u32::MAX,
    ensures
        r == sum + word_sum(data@),
{
    let n: usize = data.len();
    let mut acc: u32 = sum;
    let mut i: usize = 0;
    assert(data@.subrange(0, n as int) =~= data@);
    while n - i >= 2
        invariant
            i <= n,
            n == data@.len(),
            sum + word_sum(data@) <= u32::MAX,
            acc + word_sum(data@.subrange(i as int, n as int)) == sum + word_sum(data@),
        decreases n - i,
    {
        let ghost rest = data@.subrange(i as int, n as int);
        assert(rest.subrange(2, rest.len() as int) =~= data@.subrange(i + 2, n as int));
        acc = acc + (data[i] as u32 * 256 + data[i + 1] as u32);
        i = i + 2;
    }
    if i < n {
        acc = acc + data[i] as u32 * 256;
    }
    acc
}

/// Fold a running checksum sum to the final 16-bit one's complement.
pub fn checksum_fold(sum: u32) -> (c: u16)
    ensures
        c == folded(sum as nat),
{
    let mut s: u32 = sum;
    while s >= 65536
        invariant
            ones_sum(s as nat) == ones_sum(sum as nat),
        decreases s,
    {
        proof {
            lemma_fold_step(s as nat);
        }
        s = s % 65536 + s / 65536;
    }
    assert(s < 65536 ==> ones_sum(s as nat) == s);
    65535 - s as u16
}

/// Changing byte `i` changes the sum by the difference, at its place in a word.
pub proof fn lemma_word_sum_update(data: Seq<u8>, i: int, b: u8)
    requires
        0 <= i < data.len(),
    ensures
        word_sum(data.update(i, b)) - word_sum(data) == (b - data[i]) * if i % 2 == 0 {
            256
        } else {
            1int
        },
    decreases data.len(),
{
    let changed = data.update(i, b);
    if data.len() >= 2 {
        let rest = data.subrange(2, data.len() as int);
        if i >= 2 {
            assert(changed.subrange(2, changed.len() as int) =~= rest.update(i - 2, b));
            lemma_word_sum_update(rest, i - 2, b);
        } else {
            assert(changed.subrange(2, changed.len() as int) =~= rest);
        }
    }
}

/// Two sums that both check to zero do not differ by less than a full round.
pub proof fn lemma_checks_apart(a: nat, b: nat)
    requires
        folded(a) == 0,
        folded(b) == 0,
    ensures
        a == b || a - b >= 65535 || b - a >= 65535,
{
    assert((a - 1) % 65535 == 65534);
    assert((b - 1) % 65535 == 65534);
}

/// A checksum detects any single changed byte: data that checks to zero does not once
/// one of its bytes is another.
pub proof fn changed_byte_is_detected(data: Seq<u8>, i: int, b: u8)
    requires
        0 <= i < data.len(),
        b != data[i],
        folded(word_sum(data)) == 0,
    ensures
        folded(word_sum(data.update(i, b))) != 0,
{
    lemma_word_sum_update(data, i, b);
    if folded(word_sum(data.update(i, b))) == 0 {
        lemma_checks_apart(word_sum(data.update(i, b)), word_sum(data));
    }
}

/// Filling the checksum field of any data that has a zero field at an even offset
/// makes the data check to zero.
pub proof fn filled_checksum_is_zero(pre: Seq<u8>, post: Seq<u8>, c: u16)
    requires
        pre.len() % 2 == 0,
        c == folded(word_sum(pre + be16(0) + post)) || (folded(word_sum(pre + be16(0) + post)) == 0
            && c == 0xFFFF),
    ensures
        folded(word_sum(pre + be16(c) + post)) == 0,
{
    lemma_word_sum_concat(pre, be16(0));
    lemma_word_sum_concat(pre + be16(0), post);
    lemma_word_sum_concat(pre, be16(c));
    lemma_word_sum_concat(pre + be16(c), post);
    lemma_word_sum_be16(0);
    lemma_word_sum_be16(c);
    let sum = word_sum(pre + be16(0) + post);
    lemma_checksum_fills(sum, c);
    assert(word_sum(pre + be16(c) + post) == sum + c as nat);
}

/// Data of two bytes more has the sum of one word more, and data that checks has words
/// that make a multiple of 65535, which is not zero.
pub proof fn checksum_is_of_words(data: Seq<u8>, high: u8, low: u8)
    ensures
        word_sum(Seq::empty()) == 0,
        word_sum(seq![high]) == high as int * 256,
        word_sum(seq![high, low] + data) == high as int * 256 + low as int + word_sum(data),
        data.len() % 2 == 0 ==> word_sum(data + seq![high, low]) == word_sum(data) + high as int
            * 256 + low as int,
        folded(word_sum(data)) == 0 <==> word_sum(data) > 0 && word_sum(data) % 65535 == 0,
{
    let pair = seq![high, low];
    reveal_with_fuel(word_sum, 2);
    assert((pair + data).subrange(2, (pair + data).len() as int) =~= data);
    assert(pair.subrange(2, 2) =~= Seq::<u8>::empty());
    if data.len() % 2 == 0 {
        lemma_word_sum_concat(data, pair);
    }
    let s = word_sum(data);
    if s > 0 {
        assert(ones_sum(s) == (s - 1) % 65535 + 1);
        assert(ones_sum(s) == 65535 <==> s % 65535 == 0);
    }
}

/// The checksum is the one's complement of the words' sum: both together make a
/// multiple of 65535.
pub proof fn checksum_completes_the_sum(sum: nat)
    ensures
        (sum + folded(sum) as nat) % 65535 == 0,
        sum == 0 ==> folded(sum) == 65535,
        sum > 0 ==> folded(sum) < 65535,
{
    if sum > 0 {
        lemma_checksum_fills(sum, folded(sum));
        checksum_zero_is_full(sum + folded(sum) as nat);
    }
}

proof fn checksum_zero_is_full(sum: nat)
    requires
        folded(sum) == 0,
    ensures
        sum % 65535 == 0,
{
    assert((sum - 1) % 65535 == 65534);
}

} // verus!
