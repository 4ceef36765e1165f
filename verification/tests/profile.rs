use cibos::abi::sched::{CibosProfile, Monotonic, SchedulingConfig};
use cibos::kernel::profile::{check_features, compiled_profile, BuildFeatures, FeatureConflict};

fn none() -> BuildFeatures {
    BuildFeatures {
        full_fairness: false,
        per_lane_weights: false,
        rtro: false,
        cryptographic_ipc: false,
        lightweight_handshake: false,
        profile_maximum_isolation: false,
        profile_balanced: false,
        profile_performance: false,
        profile_compute: false,
    }
}

#[test]
fn incompatible_features_are_refused() {
    assert_eq!(check_features(&none()), Ok(()));
    let f = BuildFeatures { full_fairness: true, per_lane_weights: true, ..none() };
    assert_eq!(check_features(&f), Err(FeatureConflict::FairnessAndWeights));
    let f = BuildFeatures { rtro: true, lightweight_handshake: true, ..none() };
    assert_eq!(check_features(&f), Err(FeatureConflict::ObfuscationAndLightweight));
    let f = BuildFeatures { cryptographic_ipc: true, lightweight_handshake: true, ..none() };
    assert_eq!(check_features(&f), Err(FeatureConflict::CryptographicAndLightweight));
    let f = BuildFeatures { profile_balanced: true, profile_compute: true, ..none() };
    assert_eq!(check_features(&f), Err(FeatureConflict::SeveralProfiles));
}

#[test]
fn one_bundle_gives_its_profile() {
    assert_eq!(compiled_profile(&none()), None);
    let f = BuildFeatures { profile_maximum_isolation: true, ..none() };
    assert_eq!(compiled_profile(&f), Some(CibosProfile::MaximumIsolation));
    let f = BuildFeatures { profile_balanced: true, ..none() };
    assert_eq!(compiled_profile(&f), Some(CibosProfile::Balanced));
    let f = BuildFeatures { profile_performance: true, ..none() };
    assert_eq!(compiled_profile(&f), Some(CibosProfile::Performance));
    let f = BuildFeatures { profile_compute: true, ..none() };
    assert_eq!(check_features(&f), Ok(()));
    assert_eq!(compiled_profile(&f), Some(CibosProfile::Compute));
}

#[test]
fn isolation_weighs_all_classes_alike() {
    let c = SchedulingConfig::defaults_for(CibosProfile::MaximumIsolation);
    assert_eq!((c.system_weight, c.user_weight, c.background_weight), (1, 1, 1));
}

#[test]
fn the_clock_does_not_wrap() {
    let t = Monotonic::from_nanos(u64::MAX - 1);
    assert_eq!(t.saturating_add(5), Monotonic::from_nanos(u64::MAX));
    assert!(Monotonic::from_millis(2).reached(Monotonic::from_nanos(2_000_000)));
    assert!(!Monotonic::zero().reached(Monotonic::from_nanos(1)));
}
