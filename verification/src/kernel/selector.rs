//! Weighted-entropy selector.
//!
//! The dispatch decision over the ready set, the number of execution contexts, and
//! the kernel CSPRNG. Where every ready lane has a context, every ready lane is
//! dispatched, and weights are irrelevant. Otherwise exactly `contexts` lanes are
//! chosen by weighted random sampling without replacement: a lane's chance of being
//! picked is proportional to its weight.
use vstd::prelude::*;
use crate::abi::ids::LaneId;
use crate::kernel::entropy::{bounded_draw, Csprng, Stream, MAX_REJECTIONS};

verus! {

/// A ready lane and the weight to give it during competition.
#[derive(Debug, Clone, Copy, PartialEq, Eq, Structural)]
pub struct WeightedLane {
    /// The lane.
    pub lane: LaneId,
    /// Selection weight (already resolved from the lane's class and the active
    /// profile).
    pub weight: u32,
}

/// The lanes of a list.
pub open spec fn lanes_of(ready: Seq<WeightedLane>) -> Seq<LaneId> {
    Seq::new(ready.len(), |i: int| ready[i].lane)
}

/// The lanes with their weights in the draw: a weight of zero counts as one.
pub open spec fn pool_of(ready: Seq<WeightedLane>) -> Seq<(LaneId, u64)> {
    Seq::new(
        ready.len(),
        |i: int|
            (
                ready[i].lane,
                if ready[i].weight == 0 {
                    1u64
                } else {
                    ready[i].weight as u64
                },
            ),
    )
}

/// The weights of the first `n` lanes of a pool, together.
pub open spec fn weight_below(pool: Seq<(LaneId, u64)>, n: int) -> nat
    decreases n,
{
    if n <= 0 {
        0
    } else {
        weight_below(pool, n - 1) + pool[n - 1].1 as nat
    }
}

/// The weight of a whole pool.
pub open spec fn total_weight(pool: Seq<(LaneId, u64)>) -> nat {
    weight_below(pool, pool.len() as int)
}

/// `ticket` falls to the lane at place `i` of a pool.
pub open spec fn wins(pool: Seq<(LaneId, u64)>, ticket: int, i: int) -> bool {
    &&& 0 <= i < pool.len()
    &&& weight_below(pool, i) <= ticket < weight_below(pool, i + 1)
}

/// The place of the winner of `ticket`.
pub open spec fn winner(pool: Seq<(LaneId, u64)>, ticket: int) -> int {
    choose|i: int| wins(pool, ticket, i)
}

/// A pool without its `i`-th lane, whose place the last one takes.
pub open spec fn taken_out(pool: Seq<(LaneId, u64)>, i: int) -> Seq<(LaneId, u64)> {
    pool.update(i, pool.last()).drop_last()
}

/// The lanes drawn from a pool by `n` tickets of a stream, and where the stream
/// stands then.
pub open spec fn drawn(pool: Seq<(LaneId, u64)>, n: nat, s: Stream) -> (Seq<LaneId>, Stream)
    decreases n,
{
    if n == 0 || pool.len() == 0 {
        (Seq::empty(), s)
    } else {
        let (ticket, at) = bounded_draw(
            s.key,
            s.at,
            total_weight(pool) as u64,
            MAX_REJECTIONS as nat,
        );
        let i = winner(pool, ticket as int);
        let (rest, end) = drawn(taken_out(pool, i), (n - 1) as nat, Stream { at, ..s });
        (seq![pool[i].0] + rest, end)
    }
}

/// The selection from a ready list, and where the stream stands then.
pub open spec fn selected(ready: Seq<WeightedLane>, contexts: nat, s: Stream) -> (
    Seq<LaneId>,
    Stream,
) {
    if ready.len() <= contexts {
        (lanes_of(ready), s)
    } else {
        drawn(pool_of(ready), contexts, s)
    }
}

/// Weights add up along a pool.
proof fn lemma_weight_monotone(pool: Seq<(LaneId, u64)>, a: int, b: int)
    requires
        0 <= a <= b <= pool.len(),
    ensures
        weight_below(pool, a) <= weight_below(pool, b),
    decreases b - a,
{
    if a < b {
        lemma_weight_monotone(pool, a, b - 1);
    }
}

/// A ticket falls to one lane at most.
proof fn lemma_one_winner(pool: Seq<(LaneId, u64)>, ticket: int, i: int, j: int)
    requires
        wins(pool, ticket, i),
        wins(pool, ticket, j),
    ensures
        i == j,
{
    if i < j {
        lemma_weight_monotone(pool, i + 1, j);
    } else if j < i {
        lemma_weight_monotone(pool, j + 1, i);
    }
}

/// The place of the lane that `ticket` falls to.
pub fn pick(pool: &Vec<(LaneId, u64)>, ticket: u64) -> (i: usize)
    requires
        ticket < total_weight(pool@),
        total_weight(pool@) <= u64::MAX,
    ensures
        wins(pool@, ticket as int, i as int),
        i == winner(pool@, ticket as int),
{
    let mut rest: u64 = ticket;
    let mut i: usize = 0;
    while i < pool.len()
        invariant
            i <= pool@.len(),
            ticket < total_weight(pool@),
            weight_below(pool@, i as int) + rest == ticket,
        decreases pool@.len() - i,
    {
        let w: u64 = pool[i].1;
        if rest < w {
            assert(wins(pool@, ticket as int, i as int));
            proof {
                lemma_one_winner(
                    pool@,
                    ticket as int,
                    i as int,
                    winner(pool@, ticket as int),
                );
            }
            return i;
        }
        rest = rest - w;
        i = i + 1;
    }
    // The ticket is below the total, so some lane has won.
    0
}

/// The weight of a whole pool.
fn sum_weights(pool: &Vec<(LaneId, u64)>) -> (total: u64)
    requires
        total_weight(pool@) <= u64::MAX,
    ensures
        total == total_weight(pool@),
{
    let mut total: u64 = 0;
    let mut i: usize = 0;
    while i < pool.len()
        invariant
            i <= pool@.len(),
            total_weight(pool@) <= u64::MAX,
            total == weight_below(pool@, i as int),
        decreases pool@.len() - i,
    {
        proof {
            lemma_weight_monotone(pool@, i + 1, pool@.len() as int);
        }
        total = total + pool[i].1;
        i = i + 1;
    }
    total
}

/// The weights up to a place depend on the pool up to there.
proof fn lemma_weight_prefix(a: Seq<(LaneId, u64)>, b: Seq<(LaneId, u64)>, n: int)
    requires
        0 <= n <= a.len(),
        n <= b.len(),
        forall|j: int| 0 <= j < n ==> a[j] == b[j],
    ensures
        weight_below(a, n) == weight_below(b, n),
    decreases n,
{
    if n > 0 {
        lemma_weight_prefix(a, b, n - 1);
    }
}

/// Replacing one weight changes the total by the difference.
proof fn lemma_weight_update(pool: Seq<(LaneId, u64)>, i: int, x: (LaneId, u64), n: int)
    requires
        0 <= i < pool.len(),
        0 <= n <= pool.len(),
    ensures
        i < n ==> weight_below(pool.update(i, x), n) + pool[i].1 == weight_below(pool, n) + x.1,
        i >= n ==> weight_below(pool.update(i, x), n) == weight_below(pool, n),
    decreases n,
{
    if n > 0 {
        lemma_weight_update(pool, i, x, n - 1);
    }
}

/// Taking a lane out takes its weight out.
proof fn lemma_taken_out(pool: Seq<(LaneId, u64)>, i: int)
    requires
        0 <= i < pool.len(),
        forall|j: int| 0 <= j < pool.len() ==> (#[trigger] pool[j]).1 >= 1,
    ensures
        total_weight(taken_out(pool, i)) + pool[i].1 == total_weight(pool),
        forall|j: int|
            0 <= j < taken_out(pool, i).len() ==> (#[trigger] taken_out(pool, i)[j]).1 >= 1,
{
    let n = pool.len() as int;
    let u = pool.update(i, pool.last());
    lemma_weight_update(pool, i, pool.last(), n);
    let t = taken_out(pool, i);
    lemma_weight_prefix(t, u, n - 1);
    assert(u[n - 1] == pool.last());
}

/// A pool of lanes with weights of at least one weighs at least its length.
proof fn lemma_weight_positive(pool: Seq<(LaneId, u64)>, n: int)
    requires
        0 <= n <= pool.len(),
        forall|j: int| 0 <= j < pool.len() ==> (#[trigger] pool[j]).1 >= 1,
    ensures
        weight_below(pool, n) >= n,
    decreases n,
{
    if n > 0 {
        lemma_weight_positive(pool, n - 1);
    }
}

/// Select which ready lanes to dispatch this pass.
///
/// Returns all lanes when `ready.len() <= contexts`; otherwise returns exactly
/// `contexts` lanes chosen by weighted sampling without replacement using `rng`.
/// Any lane with weight zero is treated as weight 1 so it can never become
/// permanently unselectable.
pub fn select(ready: &[WeightedLane], contexts: usize, rng: &mut Csprng) -> (chosen: Vec<LaneId>)
    requires
        total_weight(pool_of(ready@)) <= u64::MAX,
    ensures
        (chosen@, final(rng)@) == selected(ready@, contexts as nat, old(rng)@),
{
    let n: usize = ready.len();
    // No competition: dispatch everything.
    if n <= contexts {
        let mut all: Vec<LaneId> = Vec::new();
        let mut i: usize = 0;
        while i < n
            invariant
                i <= n,
                n == ready@.len(),
                all@ == lanes_of(ready@).subrange(0, i as int),
            decreases n - i,
        {
            all.push(ready[i].lane);
            i = i + 1;
            assert(all@ =~= lanes_of(ready@).subrange(0, i as int));
        }
        assert(lanes_of(ready@).subrange(0, n as int) =~= lanes_of(ready@));
        return all;
    }
    // Competition: weighted sampling without replacement, on a pool that shrinks.
    let mut pool: Vec<(LaneId, u64)> = Vec::new();
    let mut i: usize = 0;
    while i < n
        invariant
            i <= n,
            n == ready@.len(),
            pool@ == pool_of(ready@).subrange(0, i as int),
        decreases n - i,
    {
        let w: u32 = ready[i].weight;
        pool.push(
            (
                ready[i].lane,
                if w == 0 {
                    1
                } else {
                    w as u64
                },
            ),
        );
        i = i + 1;
        assert(pool@ =~= pool_of(ready@).subrange(0, i as int));
    }
    assert(pool@ =~= pool_of(ready@));
    let mut chosen: Vec<LaneId> = Vec::new();
    let mut k: usize = 0;
    let ghost all = drawn(pool@, contexts as nat, rng@);
    assert(chosen@ + all.0 =~= all.0);
    while k < contexts && pool.len() > 0
        invariant
            k <= contexts,
            total_weight(pool@) <= u64::MAX,
            forall|j: int| 0 <= j < pool@.len() ==> (#[trigger] pool@[j]).1 >= 1,
            all.0 == chosen@ + drawn(pool@, (contexts - k) as nat, rng@).0,
            all.1 == drawn(pool@, (contexts - k) as nat, rng@).1,
        decreases contexts - k,
    {
        let ghost before = pool@;
        let ghost s = rng@;
        let ghost had = chosen@;
        let total: u64 = sum_weights(&pool);
        proof {
            lemma_weight_positive(pool@, pool@.len() as int);
        }
        let ticket: u64 = rng.next_bounded(total);
        let picked: usize = pick(&pool, ticket);
        let (lane, _) = pool.swap_remove(picked);
        chosen.push(lane);
        k = k + 1;
        proof {
            assert(pool@ =~= taken_out(before, picked as int));
            lemma_taken_out(before, picked as int);
            let rest = drawn(pool@, (contexts - k) as nat, rng@).0;
            assert(had + (seq![lane] + rest) =~= chosen@ + rest);
        }
    }
    assert(chosen@ + Seq::<LaneId>::empty() =~= chosen@);
    chosen
}

/// No lane weighs more than a 32-bit number.
proof fn lemma_weight_bound(ready: Seq<WeightedLane>, n: int)
    requires
        0 <= n <= ready.len(),
    ensures
        weight_below(pool_of(ready), n) <= n * 0xffff_ffff,
    decreases n,
{
    if n > 0 {
        lemma_weight_bound(ready, n - 1);
    }
}

/// Lanes that a 32-bit number can count have a total weight that can be drawn from.
pub proof fn few_lanes_can_be_drawn(ready: Seq<WeightedLane>)
    requires
        ready.len() <= 0x1_0000_0000,
    ensures
        total_weight(pool_of(ready)) <= u64::MAX,
{
    lemma_weight_bound(ready, ready.len() as int);
}

/// A lane wins as many tickets as it weighs: its chance in a draw is its weight
/// over the weight of the pool.
pub proof fn chance_is_proportional_to_weight(pool: Seq<(LaneId, u64)>, i: int, ticket: int)
    requires
        0 <= i < pool.len(),
        0 <= ticket < total_weight(pool),
    ensures
        (winner(pool, ticket) == i) <==> (weight_below(pool, i) <= ticket < weight_below(pool, i)
            + pool[i].1),
{
    lemma_some_winner(pool, ticket, pool.len() as int);
    let w = winner(pool, ticket);
    assert(wins(pool, ticket, w));
    if weight_below(pool, i) <= ticket < weight_below(pool, i) + pool[i].1 {
        assert(wins(pool, ticket, i));
        lemma_one_winner(pool, ticket, i, w);
    }
}

/// Every ticket below the weight of a pool falls to some lane.
proof fn lemma_some_winner(pool: Seq<(LaneId, u64)>, ticket: int, n: int)
    requires
        0 <= n <= pool.len(),
        0 <= ticket < weight_below(pool, n),
    ensures
        exists|i: int| wins(pool, ticket, i),
    decreases n,
{
    if ticket < weight_below(pool, n - 1) {
        lemma_some_winner(pool, ticket, n - 1);
    } else {
        assert(wins(pool, ticket, n - 1));
    }
}

/// What a draw chooses are lanes of the pool, each as often as it is there at most.
proof fn lemma_drawn(pool: Seq<(LaneId, u64)>, n: nat, s: Stream)
    requires
        forall|j: int| 0 <= j < pool.len() ==> (#[trigger] pool[j]).1 >= 1,
        total_weight(pool) <= u64::MAX,
        forall|i: int, j: int| 0 <= i < j < pool.len() ==> pool[i].0 != pool[j].0,
    ensures
        ({
            let c = drawn(pool, n, s).0;
            &&& c.len() == if n < pool.len() {
                n
            } else {
                pool.len()
            }
            &&& c.no_duplicates()
            &&& forall|k: int|
                0 <= k < c.len() ==> exists|j: int|
                    0 <= j < pool.len() && (#[trigger] pool[j]).0 == #[trigger] c[k]
        }),
    decreases n,
{
    if n > 0 && pool.len() > 0 {
        let total = total_weight(pool) as u64;
        lemma_weight_positive(pool, pool.len() as int);
        lemma_bounded_below(s.key, s.at, total, MAX_REJECTIONS as nat);
        let (ticket, at) = bounded_draw(s.key, s.at, total, MAX_REJECTIONS as nat);
        lemma_some_winner(pool, ticket as int, pool.len() as int);
        let i = winner(pool, ticket as int);
        assert(wins(pool, ticket as int, i));
        let rest_pool = taken_out(pool, i);
        lemma_taken_out(pool, i);
        assert forall|a: int, b: int| 0 <= a < b < rest_pool.len() implies rest_pool[a].0
            != rest_pool[b].0 by {
            let a0 = if a == i {
                pool.len() - 1
            } else {
                a
            };
            let b0 = if b == i {
                pool.len() - 1
            } else {
                b
            };
            assert(rest_pool[a] == pool[a0] && rest_pool[b] == pool[b0]);
        }
        let next = Stream { at, ..s };
        lemma_drawn(rest_pool, (n - 1) as nat, next);
        let rest = drawn(rest_pool, (n - 1) as nat, next).0;
        let c = drawn(pool, n, s).0;
        assert(c == seq![pool[i].0] + rest);
        // No lane of the rest is the one taken out.
        assert forall|k: int| 0 <= k < rest.len() implies (exists|j: int|
            0 <= j < pool.len() && j != i && (#[trigger] pool[j]).0 == #[trigger] rest[k]) by {
            let j = choose|j: int|
                0 <= j < rest_pool.len() && (#[trigger] rest_pool[j]).0 == rest[k];
            let j0 = if j == i {
                pool.len() - 1
            } else {
                j
            };
            assert(pool[j0] == rest_pool[j]);
            assert(j0 != i);
        }
        assert forall|a: int, b: int| 0 <= a < c.len() && 0 <= b < c.len() && a != b implies c[a]
            != c[b] by {
            if a == 0 {
                let j = choose|j: int|
                    0 <= j < pool.len() && j != i && (#[trigger] pool[j]).0 == rest[b - 1];
                assert(c[b] == rest[b - 1]);
            } else if b == 0 {
                let j = choose|j: int|
                    0 <= j < pool.len() && j != i && (#[trigger] pool[j]).0 == rest[a - 1];
                assert(c[a] == rest[a - 1]);
            } else {
                assert(c[a] == rest[a - 1] && c[b] == rest[b - 1]);
            }
        }
        assert forall|k: int| 0 <= k < c.len() implies exists|j: int|
            0 <= j < pool.len() && (#[trigger] pool[j]).0 == #[trigger] c[k] by {
            if k == 0 {
                assert(pool[i].0 == c[0]);
            } else {
                let j = choose|j: int|
                    0 <= j < pool.len() && j != i && (#[trigger] pool[j]).0 == rest[k - 1];
                assert(pool[j].0 == c[k]);
            }
        }
    }
}

/// A bounded draw lies below its bound.
proof fn lemma_bounded_below(key: Seq<u8>, at: nat, bound: u64, tries: nat)
    requires
        bound > 0,
    ensures
        bounded_draw(key, at, bound, tries).0 < bound,
    decreases tries,
{
    if tries > 0 {
        lemma_bounded_below(key, at + 8, bound, (tries - 1) as nat);
    }
}

/// A selection holds as many lanes as there are contexts, or all if there are
/// fewer; only ready lanes; and no lane twice.
pub proof fn selection_is_fair_sized(ready: Seq<WeightedLane>, contexts: nat, s: Stream)
    requires
        total_weight(pool_of(ready)) <= u64::MAX,
        lanes_of(ready).no_duplicates(),
    ensures
        ({
            let c = selected(ready, contexts, s).0;
            &&& c.len() == if contexts < ready.len() {
                contexts
            } else {
                ready.len()
            }
            &&& c.no_duplicates()
            &&& forall|k: int|
                0 <= k < c.len() ==> lanes_of(ready).contains(#[trigger] c[k])
        }),
{
    if ready.len() > contexts {
        let pool = pool_of(ready);
        assert forall|i: int, j: int| 0 <= i < j < pool.len() implies pool[i].0 != pool[j].0 by {
            assert(lanes_of(ready)[i] != lanes_of(ready)[j]);
        }
        lemma_drawn(pool, contexts, s);
        let c = selected(ready, contexts, s).0;
        assert forall|k: int| 0 <= k < c.len() implies lanes_of(ready).contains(
            #[trigger] c[k],
        ) by {
            let j = choose|j: int| 0 <= j < pool.len() && (#[trigger] pool[j]).0 == c[k];
            assert(lanes_of(ready)[j] == c[k]);
        }
    } else {
        let c = selected(ready, contexts, s).0;
        assert forall|k: int| 0 <= k < c.len() implies lanes_of(ready).contains(
            #[trigger] c[k],
        ) by {
            assert(lanes_of(ready)[k] == c[k]);
        }
    }
}

/// A lane goes into the draw with the weight it was given, or with one if that is zero,
/// and the weight of the lanes up to a place is that of the lanes before it and its own.
pub proof fn weights_count_as_given(ready: Seq<WeightedLane>, i: int)
    requires
        0 <= i < ready.len(),
    ensures
        pool_of(ready).len() == ready.len(),
        pool_of(ready)[i].0 == ready[i].lane,
        ready[i].weight > 0 ==> pool_of(ready)[i].1 == ready[i].weight,
        ready[i].weight == 0 ==> pool_of(ready)[i].1 == 1,
        weight_below(pool_of(ready), 0) == 0,
        weight_below(pool_of(ready), i + 1) == weight_below(pool_of(ready), i) + pool_of(
            ready,
        )[i].1,
        total_weight(pool_of(ready)) == weight_below(pool_of(ready), ready.len() as int),
{
}

/// How lanes are chosen. Where there are contexts for all, all are, in order, and no
/// number is drawn. Else the first choice falls by one number drawn below the weight of
/// all lanes together: to the lane on whose stretch it falls, if the lanes' weights are
/// laid end to end in order.
pub proof fn first_choice_falls_by_weight(
    ready: &[WeightedLane],
    contexts: usize,
    rng: &mut Csprng,
    chosen: Vec<LaneId>,
    twin: &mut Csprng,
    ticket: u64,
    i: int,
)
    requires
        total_weight(pool_of(ready@)) <= u64::MAX,
        call_ensures(select, (ready, contexts, rng), chosen),
        old(twin)@ == old(rng)@,
        call_ensures(Csprng::next_bounded, (twin, total_weight(pool_of(ready@)) as u64), ticket),
        0 <= i < ready@.len(),
        weight_below(pool_of(ready@), i) <= ticket < weight_below(pool_of(ready@), i)
            + if ready@[i].weight == 0 {
            1
        } else {
            ready@[i].weight as int
        },
    ensures
        ready@.len() <= contexts ==> {
            &&& chosen@.len() == ready@.len()
            &&& forall|k: int| 0 <= k < ready@.len() ==> #[trigger] chosen@[k] == ready@[k].lane
            &&& final(rng)@ == old(rng)@
        },
        1 <= contexts < ready@.len() ==> chosen@.len() >= 1 && chosen@[0] == ready@[i].lane,
        contexts == 1 && ready@.len() > 1 ==> chosen@.len() == 1 && final(rng)@ == final(twin)@,
        contexts == 0 ==> chosen@.len() == 0,
{
    let pool = pool_of(ready@);
    weights_count_as_given(ready@, i);
    assert(wins(pool, ticket as int, i));
    let w = winner(pool, ticket as int);
    assert(wins(pool, ticket as int, w));
    lemma_one_winner(pool, ticket as int, i, w);
    reveal_with_fuel(drawn, 2);
    if 1 <= contexts < ready@.len() {
        let s = old(rng)@;
        let (t, at) = bounded_draw(
            s.key,
            s.at,
            total_weight(pool) as u64,
            MAX_REJECTIONS as nat,
        );
        assert(t == ticket);
        let rest = drawn(taken_out(pool, w), (contexts - 1) as nat, Stream { at, ..s });
        assert(chosen@ == seq![pool[w].0] + rest.0);
    }
}

} // verus!
