//! Application-wide constants and default values.
//!
//! Thresholds and smoothing parameters are fixed point (see
//! [`crate::SCALE`]).

use vstd::prelude::*;

verus! {

/// Default sigma multiplier for control limits (3.0).
pub const DEFAULT_SIGMA: i64 = 3145728;

/// Default outlier detection threshold, as a z-score (3.0).
pub const DEFAULT_OUTLIER_THRESHOLD: i64 = 3145728;

/// Default outlier filter sigma threshold (3.0).
pub const DEFAULT_OUTLIER_SIGMA: i64 = 3145728;

/// Default moving-average window size.
pub const DEFAULT_MA_WINDOW: usize = 10;

/// Default EWMA smoothing constant (0.2, to fixed-point precision).
pub const DEFAULT_EWMA_LAMBDA: i64 = 209715;

/// Default regression order (1 = linear, 2 = quadratic).
pub const DEFAULT_REGRESSION_ORDER: usize = 1;

/// Default X-bar R chart subgroup size.
pub const DEFAULT_XBARR_SUBGROUP: usize = 5;

/// Default p-chart sample size.
pub const DEFAULT_PCHART_SAMPLE: usize = 50;

/// Default lower specification limit (0.0).
pub const DEFAULT_SPEC_LOWER: i64 = 0;

/// Default upper specification limit (100.0).
pub const DEFAULT_SPEC_UPPER: i64 = 104857600;

/// Point threshold before reduction kicks in.
pub const DOWNSAMPLE_THRESHOLD: usize = 5000;

/// Maximum number of recent files to track.
pub const MAX_RECENT_FILES: usize = 10;

/// Default number of histogram bins.
pub const DEFAULT_HISTOGRAM_BINS: usize = 20;

} // verus!
