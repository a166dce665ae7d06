//! Level-of-detail tiers for massive datasets: which resolution to draw at
//! a given zoom ratio. Generating and loading tier files is I/O and lives
//! with the caller; this module holds the selection rules.

use vstd::prelude::*;

verus! {

/// A level-of-detail tier.
#[derive(Clone, Copy, Debug, PartialEq, Eq, Structural)]
pub enum LodTier {
    /// Full resolution (raw data).
    Raw,
    /// About 100,000 points (close zoom).
    High,
    /// About 10,000 points (moderate zoom).
    Medium,
    /// About 1,000 points (overview).
    Low,
}

impl LodTier {
    /// Target point count of the tier (`None` for no reduction).
    pub fn target_points(&self) -> (r: Option<usize>)
        ensures
            *self == LodTier::Raw ==> r is None,
            *self == LodTier::High ==> r == Some(100000usize),
            *self == LodTier::Medium ==> r == Some(10000usize),
            *self == LodTier::Low ==> r == Some(1000usize),
    {
        match self {
            LodTier::Raw => None,
            LodTier::High => Some(100000),
            LodTier::Medium => Some(10000),
            LodTier::Low => Some(1000),
        }
    }

    /// File suffix of the tier.
    pub fn suffix(&self) -> (r: &'static str)
        ensures
            *self == LodTier::Raw ==> r@ == "raw"@,
            *self == LodTier::High ==> r@ == "lod_100k"@,
            *self == LodTier::Medium ==> r@ == "lod_10k"@,
            *self == LodTier::Low ==> r@ == "lod_1k"@,
    {
        match self {
            LodTier::Raw => "raw",
            LodTier::High => "lod_100k",
            LodTier::Medium => "lod_10k",
            LodTier::Low => "lod_1k",
        }
    }

    /// Tier for a zoom ratio (visible range over total range, fixed
    /// point): the further out the view, the lower the resolution; below
    /// one percent of the data the raw tier is needed.
    pub fn for_zoom(zoom_ratio: i64) -> (r: LodTier)
        ensures
            zoom_ratio > crate::SCALE / 2 ==> r == LodTier::Low,
            crate::SCALE / 10 < zoom_ratio <= crate::SCALE / 2 ==> r == LodTier::Medium,
            crate::SCALE / 100 < zoom_ratio <= crate::SCALE / 10 ==> r == LodTier::High,
            zoom_ratio <= crate::SCALE / 100 ==> r == LodTier::Raw,
    {
        if zoom_ratio > crate::SCALE / 2 {
            LodTier::Low
        } else if zoom_ratio > crate::SCALE / 10 {
            LodTier::Medium
        } else if zoom_ratio > crate::SCALE / 100 {
            LodTier::High
        } else {
            LodTier::Raw
        }
    }

    /// The tiers that are computed ahead of time (all but raw).
    pub fn all_computed() -> (r: Vec<LodTier>)
        ensures
            r@ =~= seq![LodTier::Low, LodTier::Medium, LodTier::High],
    {
        let mut v: Vec<LodTier> = Vec::new();
        v.push(LodTier::Low);
        v.push(LodTier::Medium);
        v.push(LodTier::High);
        proof {
            assert(v@ =~= seq![LodTier::Low, LodTier::Medium, LodTier::High]);
        }
        v
    }
}

/// Detail rank of a tier, for comparisons: raw is the most detailed.
pub fn tier_detail_level(tier: LodTier) -> (r: u8)
    ensures
        tier == LodTier::Low ==> r == 0,
        tier == LodTier::Medium ==> r == 1,
        tier == LodTier::High ==> r == 2,
        tier == LodTier::Raw ==> r == 3,
{
    match tier {
        LodTier::Low => 0,
        LodTier::Medium => 1,
        LodTier::High => 2,
        LodTier::Raw => 3,
    }
}

} // verus!
