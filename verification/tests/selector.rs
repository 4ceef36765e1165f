use cibos::abi::ids::LaneId;
use cibos::kernel::entropy::Csprng;
use cibos::kernel::selector::{pick, select, WeightedLane};

fn lanes(ids_weights: &[(u64, u32)]) -> Vec<WeightedLane> {
    ids_weights
        .iter()
        .map(|(id, w)| WeightedLane {
            lane: LaneId::new(*id),
            weight: *w,
        })
        .collect()
}

#[test]
fn no_competition_dispatches_all() {
    let mut rng = Csprng::from_seed([0u8; 32]);
    let ready = lanes(&[(1, 1), (2, 5), (3, 3)]);
    let out = select(&ready, 4, &mut rng);
    assert_eq!(out.len(), 3);
    // All present, order may follow input here (no sampling path).
    assert!(out.contains(&LaneId::new(1)));
    assert!(out.contains(&LaneId::new(2)));
    assert!(out.contains(&LaneId::new(3)));
}

#[test]
fn competition_selects_exactly_contexts_without_dupes() {
    let mut rng = Csprng::from_seed([9u8; 32]);
    let ready = lanes(&[(1, 1), (2, 1), (3, 1), (4, 1), (5, 1)]);
    let out = select(&ready, 2, &mut rng);
    assert_eq!(out.len(), 2);
    assert_ne!(out[0], out[1], "no lane selected twice");
}

#[test]
fn zero_contexts_selects_none() {
    let mut rng = Csprng::from_seed([0u8; 32]);
    let ready = lanes(&[(1, 1)]);
    assert!(select(&ready, 0, &mut rng).is_empty());
}

#[test]
fn higher_weight_is_favored_under_competition() {
    // One heavy lane (weight 20) against many light lanes (weight 1).
    // Picking 1 of N each pass, the heavy lane should win far more often
    // than any individual light lane.
    let mut rng = Csprng::from_seed([123u8; 32]);
    let mut ready = vec![WeightedLane {
        lane: LaneId::new(100),
        weight: 20,
    }];
    for id in 0..9 {
        ready.push(WeightedLane {
            lane: LaneId::new(id),
            weight: 1,
        });
    }

    let mut heavy_wins = 0u32;
    let trials = 5000;
    for _ in 0..trials {
        let out = select(&ready, 1, &mut rng);
        if out[0] == LaneId::new(100) {
            heavy_wins += 1;
        }
    }
    // Heavy weight 20 of total 29 => ~69% expected. Light lanes ~3.4% each.
    // Assert the heavy lane dominates well beyond any light lane's share.
    assert!(
        heavy_wins > trials * 55 / 100 && heavy_wins < trials * 80 / 100,
        "heavy lane won {heavy_wins}/{trials}, outside expected band"
    );
}

#[test]
fn weight_zero_treated_as_one() {
    // A weight-0 lane must still be selectable (never permanently starved).
    let mut rng = Csprng::from_seed([5u8; 32]);
    let ready = lanes(&[(1, 0), (2, 0), (3, 0)]);
    let out = select(&ready, 2, &mut rng);
    assert_eq!(out.len(), 2);
}

#[test]
fn tickets_pick_by_weight() {
    let pool = vec![(LaneId::new(1), 2u64), (LaneId::new(2), 1), (LaneId::new(3), 3)];
    let winners: Vec<usize> = (0..6).map(|t| pick(&pool, t)).collect();
    assert_eq!(winners, vec![0, 0, 1, 2, 2, 2]);
}
