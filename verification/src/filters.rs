//! Data filtering configuration and the per-point filter pipeline.

use vstd::prelude::*;

verus! {

/// Filter configuration for data selection and outlier exclusion.
/// Bounds and the sigma threshold are fixed point (see [`crate::SCALE`]).
#[derive(Clone, Debug)]
pub struct FilterConfig {
    /// Exclude empty cells from the dataset.
    pub filter_empty: bool,
    /// Y axis minimum filter value.
    pub filter_y_min: Option<i64>,
    /// Y axis maximum filter value.
    pub filter_y_max: Option<i64>,
    /// X axis minimum filter value.
    pub filter_x_min: Option<i64>,
    /// X axis maximum filter value.
    pub filter_x_max: Option<i64>,
    /// Apply outlier filtering.
    pub filter_outliers: bool,
    /// Outlier threshold, in standard deviations.
    pub filter_outlier_sigma: i64,
}

impl FilterConfig {
    /// The configuration every filter starts from: nothing filtered.
    pub open spec fn default_spec() -> FilterConfig {
        FilterConfig {
            filter_empty: false,
            filter_y_min: None,
            filter_y_max: None,
            filter_x_min: None,
            filter_x_max: None,
            filter_outliers: false,
            filter_outlier_sigma: crate::constants::DEFAULT_OUTLIER_SIGMA,
        }
    }

    pub fn new() -> (r: Self)
        ensures
            r == Self::default_spec(),
    {
        FilterConfig {
            filter_empty: false,
            filter_y_min: None,
            filter_y_max: None,
            filter_x_min: None,
            filter_x_max: None,
            filter_outliers: false,
            filter_outlier_sigma: crate::constants::DEFAULT_OUTLIER_SIGMA,
        }
    }

    /// Reset every filter to its default.
    pub fn clear(&mut self)
        ensures
            *final(self) == Self::default_spec(),
    {
        *self = Self::new();
    }

    /// True when any filter would exclude points.
    pub fn has_active_filters(&self) -> (r: bool)
        ensures
            r == (self.filter_empty || self.filter_y_min is Some || self.filter_y_max is Some
                || self.filter_x_min is Some || self.filter_x_max is Some
                || self.filter_outliers),
    {
        self.filter_empty || self.filter_y_min.is_some() || self.filter_y_max.is_some()
            || self.filter_x_min.is_some() || self.filter_x_max.is_some()
            || self.filter_outliers
    }

    /// The Y range, when both ends are set.
    pub fn y_range(&self) -> (r: Option<(i64, i64)>)
        ensures
            r == (match (self.filter_y_min, self.filter_y_max) {
                (Some(min), Some(max)) => Some((min, max)),
                _ => None::<(i64, i64)>,
            }),
    {
        match (self.filter_y_min, self.filter_y_max) {
            (Some(min), Some(max)) => Some((min, max)),
            _ => None,
        }
    }

    /// The X range, when both ends are set.
    pub fn x_range(&self) -> (r: Option<(i64, i64)>)
        ensures
            r == (match (self.filter_x_min, self.filter_x_max) {
                (Some(min), Some(max)) => Some((min, max)),
                _ => None::<(i64, i64)>,
            }),
    {
        match (self.filter_x_min, self.filter_x_max) {
            (Some(min), Some(max)) => Some((min, max)),
            _ => None,
        }
    }

    pub fn set_y_range(&mut self, min: i64, max: i64)
        ensures
            *final(self) == (FilterConfig {
                filter_y_min: Some(min),
                filter_y_max: Some(max),
                ..*old(self)
            }),
    {
        self.filter_y_min = Some(min);
        self.filter_y_max = Some(max);
    }

    pub fn set_x_range(&mut self, min: i64, max: i64)
        ensures
            *final(self) == (FilterConfig {
                filter_x_min: Some(min),
                filter_x_max: Some(max),
                ..*old(self)
            }),
    {
        self.filter_x_min = Some(min);
        self.filter_x_max = Some(max);
    }

    pub fn clear_y_range(&mut self)
        ensures
            *final(self) == (FilterConfig {
                filter_y_min: None,
                filter_y_max: None,
                ..*old(self)
            }),
    {
        self.filter_y_min = None;
        self.filter_y_max = None;
    }

    pub fn clear_x_range(&mut self)
        ensures
            *final(self) == (FilterConfig {
                filter_x_min: None,
                filter_x_max: None,
                ..*old(self)
            }),
    {
        self.filter_x_min = None;
        self.filter_x_max = None;
    }

    /// Swap a reversed range (both ends set with min above max) instead of
    /// rejecting it, and clamp the outlier threshold to one through six
    /// sigma.
    pub fn validate(&mut self)
        ensures
            final(self).filter_empty == old(self).filter_empty,
            final(self).filter_outliers == old(self).filter_outliers,
            (match (old(self).filter_y_min, old(self).filter_y_max) {
                (Some(min), Some(max)) => if min > max {
                    final(self).filter_y_min == old(self).filter_y_max
                        && final(self).filter_y_max == old(self).filter_y_min
                } else {
                    final(self).filter_y_min == old(self).filter_y_min
                        && final(self).filter_y_max == old(self).filter_y_max
                },
                _ => final(self).filter_y_min == old(self).filter_y_min
                    && final(self).filter_y_max == old(self).filter_y_max,
            }),
            (match (old(self).filter_x_min, old(self).filter_x_max) {
                (Some(min), Some(max)) => if min > max {
                    final(self).filter_x_min == old(self).filter_x_max
                        && final(self).filter_x_max == old(self).filter_x_min
                } else {
                    final(self).filter_x_min == old(self).filter_x_min
                        && final(self).filter_x_max == old(self).filter_x_max
                },
                _ => final(self).filter_x_min == old(self).filter_x_min
                    && final(self).filter_x_max == old(self).filter_x_max,
            }),
            final(self).filter_outlier_sigma == clamp_spec(old(self).filter_outlier_sigma as int,
                crate::SCALE as int, 6 * (crate::SCALE as int)),
    {
        if let (Some(min), Some(max)) = (self.filter_y_min, self.filter_y_max) {
            if min > max {
                self.filter_y_min = Some(max);
                self.filter_y_max = Some(min);
            }
        }
        if let (Some(min), Some(max)) = (self.filter_x_min, self.filter_x_max) {
            if min > max {
                self.filter_x_min = Some(max);
                self.filter_x_max = Some(min);
            }
        }
        if self.filter_outlier_sigma < crate::SCALE {
            self.filter_outlier_sigma = crate::SCALE;
        } else if self.filter_outlier_sigma > 6 * crate::SCALE {
            self.filter_outlier_sigma = 6 * crate::SCALE;
        }
    }
}

/// `v` clamped into `[lo, hi]`.
pub open spec fn clamp_spec(v: int, lo: int, hi: int) -> int {
    if v < lo {
        lo
    } else if v > hi {
        hi
    } else {
        v
    }
}

/// The filter pipeline's verdict on one candidate point, as a conjunction:
/// a point passes exactly when every active condition accepts it, and a
/// point failing any one condition fails the pipeline.
///
/// A missing (unparseable) coordinate is `None`; it never fails a range or
/// outlier comparison, mirroring the all-comparisons-false behavior of a
/// missing measurement. The empty-cell condition applies only when the
/// column is among the selected Y columns; the outlier condition only when
/// the caller supplies that column's cached `(mean, stddev)`.
pub open spec fn passes_filters_spec(
    cfg: FilterConfig,
    x_val: Option<i64>,
    y_val: Option<i64>,
    raw_is_empty: bool,
    y_is_selected: bool,
    outlier_stats: Option<(i64, i64)>,
) -> bool {
    &&& !(cfg.filter_empty && y_is_selected && raw_is_empty)
    &&& (match (cfg.filter_x_min, x_val) {
        (Some(min), Some(x)) => x >= min,
        _ => true,
    })
    &&& (match (cfg.filter_x_max, x_val) {
        (Some(max), Some(x)) => x <= max,
        _ => true,
    })
    &&& (match (cfg.filter_y_min, y_val) {
        (Some(min), Some(y)) => y >= min,
        _ => true,
    })
    &&& (match (cfg.filter_y_max, y_val) {
        (Some(max), Some(y)) => y <= max,
        _ => true,
    })
    &&& (match (outlier_stats, y_val) {
        (Some((m, sd)), Some(y)) => !(cfg.filter_outliers && vstd::math::abs(y - m) * (
        crate::SCALE as int) > cfg.filter_outlier_sigma * sd),
        _ => true,
    })
}

/// Evaluate the filter pipeline for one candidate point; see
/// [`passes_filters_spec`] for the exact conjunction.
pub fn passes_filters(
    cfg: &FilterConfig,
    x_val: Option<i64>,
    y_val: Option<i64>,
    raw_is_empty: bool,
    y_is_selected: bool,
    outlier_stats: Option<(i64, i64)>,
) -> (r: bool)
    ensures
        r == passes_filters_spec(*cfg, x_val, y_val, raw_is_empty, y_is_selected,
            outlier_stats),
{
    if cfg.filter_empty && y_is_selected && raw_is_empty {
        return false;
    }
    if let (Some(min), Some(x)) = (cfg.filter_x_min, x_val) {
        if x < min {
            return false;
        }
    }
    if let (Some(max), Some(x)) = (cfg.filter_x_max, x_val) {
        if x > max {
            return false;
        }
    }
    if let (Some(min), Some(y)) = (cfg.filter_y_min, y_val) {
        if y < min {
            return false;
        }
    }
    if let (Some(max), Some(y)) = (cfg.filter_y_max, y_val) {
        if y > max {
            return false;
        }
    }
    if cfg.filter_outliers {
        if let (Some((m, sd)), Some(y)) = (outlier_stats, y_val) {
            let d: i128 = (y as i128) - (m as i128);
            let ad: i128 = if d < 0 {
                -d
            } else {
                d
            };
            proof {
                assert(-0x4000_0000_0000_0000_0000_0000_0000_0000int
                    <= (cfg.filter_outlier_sigma as int) * (sd as int)
                    <= 0x4000_0000_0000_0000_0000_0000_0000_0000int
                    && 0 <= (ad as int) * (crate::SCALE as int)
                    <= 0x4000_0000_0000_0000_0000_0000_0000_0000int) by (nonlinear_arith)
                    requires
                        -0x8000_0000_0000_0000int <= cfg.filter_outlier_sigma as int
                            <= 0x8000_0000_0000_0000int,
                        -0x8000_0000_0000_0000int <= sd as int <= 0x8000_0000_0000_0000int,
                        0 < crate::SCALE as int <= 0x10_0000int,
                        0 <= ad as int <= 0x1_0000_0000_0000_0000int;
            }
            if ad * (crate::SCALE as i128) > (cfg.filter_outlier_sigma as i128) * (sd as i128) {
                return false;
            }
        }
    }
    true
}

} // verus!
