//! The tier refinement ladder.
//!
//! Tier is an instance property: the same commodity, component, or asset
//! design exists at tiers 1..=13. The stat scaling lives here so every
//! consumer agrees on the curve.

use crate::error::SimError;
use vstd::prelude::*;

verus! {

/// Bottom of the ladder: raw extraction and unremarkable pre-war stock.
pub const MIN_TIER: u8 = 1;

/// Top of the ladder. Refining a top-tier input is refused, not wasted.
pub const MAX_TIER: u8 = 13;

/// Validate a tier value at every boundary where one enters the world.
pub fn check_tier(tier: u8) -> (r: Result<u8, SimError>)
    ensures
        MIN_TIER <= tier <= MAX_TIER ==> r == Ok::<u8, SimError>(tier),
        !(MIN_TIER <= tier <= MAX_TIER) ==> r == Err::<u8, SimError>(SimError::InvalidTier(tier)),
{
    if MIN_TIER <= tier && tier <= MAX_TIER {
        Ok(tier)
    } else {
        Err(SimError::InvalidTier(tier))
    }
}

/// The tier clamped onto the ladder.
pub open spec fn clamp_tier(tier: u8) -> int {
    if tier < MIN_TIER {
        MIN_TIER as int
    } else if tier > MAX_TIER {
        MAX_TIER as int
    } else {
        tier as int
    }
}

/// Percent multiplier of a (clamped) tier: 100 at the bottom, plus 15 per
/// tier above it.
pub open spec fn spec_tier_multiplier_pct(tier: u8) -> int {
    100 + 15 * (clamp_tier(tier) - 1)
}

/// Stat multiplier in percent for a tier. Integer math only. Tier 1 = 100%,
/// each tier adds 15 points, tier 13 = 280%.
pub fn tier_multiplier_pct(tier: u8) -> (r: u64)
    ensures
        r == spec_tier_multiplier_pct(tier),
        100 <= r <= 280,
{
    let t: u64 = if tier < MIN_TIER {
        MIN_TIER as u64
    } else if tier > MAX_TIER {
        MAX_TIER as u64
    } else {
        tier as u64
    };
    100 + 15 * (t - 1)
}

/// Apply the tier curve to a base stat (saturating on overflow).
pub fn scale_by_tier(base: u64, tier: u8) -> (r: u64)
    ensures
        r == crate::arith::clamp_u64(base * spec_tier_multiplier_pct(tier)) / 100,
{
    crate::arith::sat_mul_u64(base, tier_multiplier_pct(tier)) / 100
}

/// The curve never decreases as tier climbs.
pub proof fn lemma_tier_multiplier_monotone(a: u8, b: u8)
    requires
        a <= b,
    ensures
        spec_tier_multiplier_pct(a) <= spec_tier_multiplier_pct(b),
{
}

} // verus!
