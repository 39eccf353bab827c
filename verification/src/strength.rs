//! Constraint strengths.
//!
//! A strength is an ordered priority value with four named tiers,
//! `WEAK < MEDIUM < STRONG < REQUIRED`, each tier spanning a disjoint
//! numeric band; ties within a tier compare by the offset inside the band.
//! The values mirror the ones the solver uses, so a strength converts to
//! the solver's scale without loss.

use vstd::prelude::*;

verus! {

/// Strength of a constraint that must never be violated.
pub const REQUIRED: u64 = 1_001_001_000;

/// Strong best-effort strength.
pub const STRONG: u64 = 1_000_000;

/// Medium best-effort strength.
pub const MEDIUM: u64 = 1_000;

/// Weak best-effort strength.
pub const WEAK: u64 = 1;

/// The coarse tier a strength value falls in, used to label constraints
/// in diagnostic dumps.
#[derive(PartialEq, Eq, Structural, Clone, Copy, Debug)]
pub enum Tier {
    BelowWeak,
    Weak,
    AboveWeak,
    Medium,
    AboveMedium,
    Strong,
    AboveStrong,
    Required,
    AboveRequired,
}

/// Tier of a strength value: the named tiers split the range into
/// disjoint bands, and a value between two named tiers reports the band
/// above the lower one.
pub open spec fn spec_tier(s: u64) -> Tier {
    if s < WEAK {
        Tier::BelowWeak
    } else if s == WEAK {
        Tier::Weak
    } else if s < MEDIUM {
        Tier::AboveWeak
    } else if s == MEDIUM {
        Tier::Medium
    } else if s < STRONG {
        Tier::AboveMedium
    } else if s == STRONG {
        Tier::Strong
    } else if s < REQUIRED {
        Tier::AboveStrong
    } else if s == REQUIRED {
        Tier::Required
    } else {
        Tier::AboveRequired
    }
}

/// Computes the tier of a strength value.
pub fn tier(s: u64) -> (t: Tier)
    ensures
        t == spec_tier(s),
{
    if s < WEAK {
        Tier::BelowWeak
    } else if s == WEAK {
        Tier::Weak
    } else if s < MEDIUM {
        Tier::AboveWeak
    } else if s == MEDIUM {
        Tier::Medium
    } else if s < STRONG {
        Tier::AboveMedium
    } else if s == STRONG {
        Tier::Strong
    } else if s < REQUIRED {
        Tier::AboveStrong
    } else if s == REQUIRED {
        Tier::Required
    } else {
        Tier::AboveRequired
    }
}

/// The five-character label of a tier, as the diagnostic dump prints
/// it.
pub open spec fn spec_tier_label(t: Tier) -> Seq<char> {
    match t {
        Tier::BelowWeak => "WEAK-"@,
        Tier::Weak => "WEAK "@,
        Tier::AboveWeak => "WEAK+"@,
        Tier::Medium => "MED  "@,
        Tier::AboveMedium => "MED+ "@,
        Tier::Strong => "STR  "@,
        Tier::AboveStrong => "STR+ "@,
        Tier::Required => "REQD "@,
        Tier::AboveRequired => "REQD+"@,
    }
}

/// The printable label of a tier.
pub fn tier_label(t: Tier) -> (r: &'static str)
    ensures
        r@ == spec_tier_label(t),
{
    match t {
        Tier::BelowWeak => "WEAK-",
        Tier::Weak => "WEAK ",
        Tier::AboveWeak => "WEAK+",
        Tier::Medium => "MED  ",
        Tier::AboveMedium => "MED+ ",
        Tier::Strong => "STR  ",
        Tier::AboveStrong => "STR+ ",
        Tier::Required => "REQD ",
        Tier::AboveRequired => "REQD+",
    }
}

} // verus!
