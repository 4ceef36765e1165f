//! The profile a kernel binary is built for.
//!
//! A profile binary contains only its profile's mechanisms: some mechanisms exclude
//! each other, and at most one profile bundle may be enabled.
use vstd::prelude::*;
use crate::abi::sched::CibosProfile;

verus! {

/// The mechanisms and profile bundles enabled in a build.
#[derive(Debug, Clone, Copy, PartialEq, Eq, Structural)]
pub struct BuildFeatures {
    /// Proportional execution-time fairness.
    pub full_fairness: bool,
    /// Application-assigned weights.
    pub per_lane_weights: bool,
    /// Resource obfuscation.
    pub rtro: bool,
    /// Authenticated channels.
    pub cryptographic_ipc: bool,
    /// Trust-on-first-use channels.
    pub lightweight_handshake: bool,
    /// The maximum-isolation bundle.
    pub profile_maximum_isolation: bool,
    /// The balanced bundle.
    pub profile_balanced: bool,
    /// The performance bundle.
    pub profile_performance: bool,
    /// The compute bundle.
    pub profile_compute: bool,
}

/// Why a combination of features cannot be built.
#[derive(Debug, Clone, Copy, PartialEq, Eq, Structural)]
pub enum FeatureConflict {
    /// `full-fairness` and `per-lane-weights` are incompatible scheduling models.
    FairnessAndWeights,
    /// Resource obfuscation is meaningless where channels are trust-on-first-use.
    ObfuscationAndLightweight,
    /// Channels have one security mode.
    CryptographicAndLightweight,
    /// More than one profile bundle.
    SeveralProfiles,
}

impl BuildFeatures {
    /// How many profile bundles are enabled.
    pub open spec fn bundles(self) -> int {
        (if self.profile_maximum_isolation {
            1int
        } else {
            0
        }) + (if self.profile_balanced {
            1int
        } else {
            0
        }) + (if self.profile_performance {
            1int
        } else {
            0
        }) + (if self.profile_compute {
            1int
        } else {
            0
        })
    }

    /// The first conflict of a combination, if there is one.
    pub open spec fn conflict(self) -> Option<FeatureConflict> {
        if self.full_fairness && self.per_lane_weights {
            Some(FeatureConflict::FairnessAndWeights)
        } else if self.rtro && self.lightweight_handshake {
            Some(FeatureConflict::ObfuscationAndLightweight)
        } else if self.cryptographic_ipc && self.lightweight_handshake {
            Some(FeatureConflict::CryptographicAndLightweight)
        } else if self.bundles() > 1 {
            Some(FeatureConflict::SeveralProfiles)
        } else {
            None
        }
    }

    /// The profile whose bundle is enabled.
    pub open spec fn profile(self) -> Option<CibosProfile> {
        if self.profile_maximum_isolation {
            Some(CibosProfile::MaximumIsolation)
        } else if self.profile_balanced {
            Some(CibosProfile::Balanced)
        } else if self.profile_performance {
            Some(CibosProfile::Performance)
        } else if self.profile_compute {
            Some(CibosProfile::Compute)
        } else {
            None
        }
    }
}

/// Validate a combination of features.
pub fn check_features(f: &BuildFeatures) -> (r: Result<(), FeatureConflict>)
    ensures
        r == match f.conflict() {
            Some(c) => Err::<(), FeatureConflict>(c),
            None => Ok::<(), FeatureConflict>(()),
        },
{
    if f.full_fairness && f.per_lane_weights {
        return Err(FeatureConflict::FairnessAndWeights);
    }
    if f.rtro && f.lightweight_handshake {
        return Err(FeatureConflict::ObfuscationAndLightweight);
    }
    if f.cryptographic_ipc && f.lightweight_handshake {
        return Err(FeatureConflict::CryptographicAndLightweight);
    }
    let mut active: u32 = 0;
    if f.profile_maximum_isolation {
        active = active + 1;
    }
    if f.profile_balanced {
        active = active + 1;
    }
    if f.profile_performance {
        active = active + 1;
    }
    if f.profile_compute {
        active = active + 1;
    }
    if active > 1 {
        return Err(FeatureConflict::SeveralProfiles);
    }
    Ok(())
}

/// The operational profile a kernel binary was compiled for, as selected by exactly
/// one profile bundle, or `None` when built without one (host tests and tooling).
pub fn compiled_profile(f: &BuildFeatures) -> (p: Option<CibosProfile>)
    ensures
        p == f.profile(),
{
    if f.profile_maximum_isolation {
        return Some(CibosProfile::MaximumIsolation);
    }
    if f.profile_balanced {
        return Some(CibosProfile::Balanced);
    }
    if f.profile_performance {
        return Some(CibosProfile::Performance);
    }
    if f.profile_compute {
        return Some(CibosProfile::Compute);
    }
    None
}

/// In a combination without conflicts, the compiled profile is the one whose bundle
/// is enabled, and no other bundle is.
pub proof fn one_profile_per_binary(f: BuildFeatures)
    requires
        f.conflict() is None,
    ensures
        f.profile_maximum_isolation <==> f.profile() == Some(CibosProfile::MaximumIsolation),
        f.profile_balanced <==> f.profile() == Some(CibosProfile::Balanced),
        f.profile_performance <==> f.profile() == Some(CibosProfile::Performance),
        f.profile_compute <==> f.profile() == Some(CibosProfile::Compute),
{
}

/// A combination of features can be built exactly if it has not two scheduling models, does
/// not hide the resources of channels that are trusted on first use, has channels with one
/// security mode, and has at most one profile bundle; it is then built for the profile of
/// that bundle, or for none.
pub proof fn features_exclude_each_other(
    f: BuildFeatures,
    r: Result<(), FeatureConflict>,
    p: Option<CibosProfile>,
)
    requires
        call_ensures(check_features, (&f,), r),
        call_ensures(compiled_profile, (&f,), p),
    ensures
        r is Ok ==> !(f.full_fairness && f.per_lane_weights),
        r is Ok ==> !(f.lightweight_handshake && (f.rtro || f.cryptographic_ipc)),
        r is Ok ==> !(f.profile_maximum_isolation && (f.profile_balanced || f.profile_performance
            || f.profile_compute)) && !(f.profile_balanced && (f.profile_performance
            || f.profile_compute)) && !(f.profile_performance && f.profile_compute),
        r is Err ==> (f.full_fairness && f.per_lane_weights) || (f.lightweight_handshake && (f.rtro
            || f.cryptographic_ipc)) || (f.profile_maximum_isolation && (f.profile_balanced
            || f.profile_performance || f.profile_compute)) || (f.profile_balanced && (
        f.profile_performance || f.profile_compute)) || (f.profile_performance
            && f.profile_compute),
        r == Err::<(), FeatureConflict>(FeatureConflict::FairnessAndWeights) <==> f.full_fairness
            && f.per_lane_weights,
        r is Ok ==> {
            &&& p == Some(CibosProfile::MaximumIsolation) <==> f.profile_maximum_isolation
            &&& p == Some(CibosProfile::Balanced) <==> f.profile_balanced
            &&& p == Some(CibosProfile::Performance) <==> f.profile_performance
            &&& p == Some(CibosProfile::Compute) <==> f.profile_compute
        },
{
}

} // verus!
