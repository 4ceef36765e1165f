use cibos::kernel::entropy::{reduce_word, Csprng};

#[test]
fn deterministic_from_seed() {
    let mut a = Csprng::from_seed([1u8; 32]);
    let mut b = Csprng::from_seed([1u8; 32]);
    for _ in 0..100 {
        assert_eq!(a.next_u64(), b.next_u64());
    }
}

#[test]
fn different_seeds_diverge() {
    let mut a = Csprng::from_seed([1u8; 32]);
    let mut b = Csprng::from_seed([2u8; 32]);
    // Extremely unlikely to match across 16 draws if seeds differ.
    let mut any_diff = false;
    for _ in 0..16 {
        if a.next_u64() != b.next_u64() {
            any_diff = true;
        }
    }
    assert!(any_diff);
}

#[test]
fn bounded_in_range() {
    let mut r = Csprng::from_seed([7u8; 32]);
    for _ in 0..1000 {
        let v = r.next_bounded(10);
        assert!(v < 10);
    }
}

#[test]
fn bounded_distribution_is_reasonable() {
    // Over many draws each bucket should be hit; this guards against a
    // generator that is stuck or badly biased.
    let mut r = Csprng::from_seed([42u8; 32]);
    let mut counts = [0u32; 8];
    for _ in 0..8000 {
        counts[r.next_bounded(8) as usize] += 1;
    }
    for c in counts {
        // Expected ~1000 each; allow a wide tolerance to avoid flakiness.
        assert!(c > 700 && c < 1300, "bucket count {c} out of expected range");
    }
}

#[test]
fn stream_is_sha256_of_key_and_counter() {
    let mut r = Csprng::from_seed([0u8; 32]);
    let mut out = [0u8; 16];
    r.fill_bytes(&mut out);
    assert_eq!(
        out,
        [
            0x2c, 0x34, 0xce, 0x1d, 0xf2, 0x3b, 0x83, 0x8c, 0x5a, 0xbf, 0x2a, 0x7f, 0x64, 0x37,
            0xcc, 0xa3
        ]
    );
    let mut r = Csprng::from_seed([0u8; 32]);
    assert_eq!(r.next_u64(), 0x8c83_3bf2_1dce_342c);
    let mut r = Csprng::from_seed([1u8; 32]);
    assert_eq!(r.next_u64(), 0x9e8e_82fa_12c2_6712);
}

#[test]
fn stream_crosses_blocks() {
    // Bytes 60..68 span the second and the third block.
    let mut r = Csprng::from_seed([1u8; 32]);
    let mut out = [0u8; 68];
    r.fill_bytes(&mut out);
    assert_eq!(&out[60..], &[0x2e, 0x0f, 0xbd, 0x6a, 0x0a, 0x80, 0xa3, 0xc9]);
    let mut one = Csprng::from_seed([1u8; 32]);
    for b in out {
        assert_eq!(one.next_u8(), b);
    }
}

#[test]
fn first_word_below_the_zone_counts() {
    let mut r = Csprng::from_seed([1u8; 32]);
    assert_eq!(r.next_bounded(10), 0x9e8e_82fa_12c2_6712 % 10);
    assert_eq!(reduce_word(23, 10), Some(3));
    assert_eq!(reduce_word(u64::MAX, 10), None);
    assert_eq!(reduce_word(u64::MAX - 5, 10), None);
    assert_eq!(reduce_word(u64::MAX - 6, 10), Some(9));
    assert_eq!(reduce_word(u64::MAX, u64::MAX), None);
}

#[test]
fn rejected_words_are_passed_over() {
    // Below a bound of just over half of all words, about half of them are rejected.
    let bound = (1u64 << 63) + 1;
    let zone = u64::MAX - u64::MAX % bound;
    let mut draws = Csprng::from_seed([5u8; 32]);
    let mut words = Csprng::from_seed([5u8; 32]);
    let mut rejected = 0;
    for _ in 0..100 {
        let v = draws.next_bounded(bound);
        let mut word = words.next_u64();
        while word >= zone {
            rejected += 1;
            word = words.next_u64();
        }
        assert_eq!(v, word % bound);
    }
    assert!(rejected > 20);
    assert_eq!(draws.next_u64(), words.next_u64());
}
