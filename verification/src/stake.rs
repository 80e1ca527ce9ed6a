//! Minimum stake-delegation formulas, over the two feature switches that
//! decide them.

use vstd::prelude::*;

verus! {

/// One SOL, in lamports.
pub const LAMPORTS_PER_SOL: u64 = 1_000_000_000;

/// The feature switches the minimum-delegation formulas read.
#[derive(Clone, Copy, Debug, PartialEq, Eq, Structural)]
pub struct FeatureSet {
    /// Whether the minimum delegation for new stakes is raised to one SOL.
    pub raise_minimum_delegation_to_1_sol: bool,
    /// Whether staking rewards require a minimum delegation of one SOL.
    pub rewards_minimum_delegation_1_sol: bool,
}

/// The minimum stake amount that can be delegated, in lamports.
pub fn get_minimum_delegation_for_new_stakes(feature_set: &FeatureSet) -> (r: u64)
    ensures
        r == if feature_set.raise_minimum_delegation_to_1_sol {
            LAMPORTS_PER_SOL
        } else {
            1u64
        },
{
    if feature_set.raise_minimum_delegation_to_1_sol {
        LAMPORTS_PER_SOL
    } else {
        1
    }
}

/// The minimum amount, in lamports, that must be delegated in order to be
/// considered for staking rewards.
pub fn get_minimum_delegation_for_rewards(feature_set: &FeatureSet) -> (r: u64)
    ensures
        r == if feature_set.rewards_minimum_delegation_1_sol {
            LAMPORTS_PER_SOL
        } else {
            0u64
        },
{
    if feature_set.rewards_minimum_delegation_1_sol {
        LAMPORTS_PER_SOL
    } else {
        0
    }
}

/// The minimum amount, in lamports, that stake accounts should delegate: the
/// larger of the new-stake minimum and the rewards minimum.
pub fn get_minimum_delegation(feature_set: &FeatureSet) -> (r: u64)
    ensures
        r >= get_minimum_delegation_for_new_stakes_spec(*feature_set),
        r >= get_minimum_delegation_for_rewards_spec(*feature_set),
        r == get_minimum_delegation_for_new_stakes_spec(*feature_set) || r
            == get_minimum_delegation_for_rewards_spec(*feature_set),
{
    let new_stakes = get_minimum_delegation_for_new_stakes(feature_set);
    let rewards = get_minimum_delegation_for_rewards(feature_set);
    if new_stakes >= rewards {
        new_stakes
    } else {
        rewards
    }
}

/// What [`get_minimum_delegation_for_new_stakes`] returns.
pub open spec fn get_minimum_delegation_for_new_stakes_spec(feature_set: FeatureSet) -> u64 {
    if feature_set.raise_minimum_delegation_to_1_sol {
        LAMPORTS_PER_SOL
    } else {
        1u64
    }
}

/// What [`get_minimum_delegation_for_rewards`] returns.
pub open spec fn get_minimum_delegation_for_rewards_spec(feature_set: FeatureSet) -> u64 {
    if feature_set.rewards_minimum_delegation_1_sol {
        LAMPORTS_PER_SOL
    } else {
        0u64
    }
}

} // verus!
