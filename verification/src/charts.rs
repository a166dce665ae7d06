//! Chart transforms: moving averages, box plot, X-bar/R and p charts, and
//! linear regression. All values are fixed point (see [`crate::SCALE`]);
//! quotients round toward negative infinity.

use vstd::prelude::*;
use vstd::arithmetic::div_mod::{
    lemma_div_is_ordered, lemma_div_multiples_vanish, lemma_div_pos_is_pos,
};
use crate::stats::{
    max_seq, min_seq, median_spec, sqrt_floor, sum_seq, value_leq, values_bounded, MAX_LEN,
    VAL_BOUND,
};

verus! {

/// Mean of `s[lo..hi]`, rounded toward negative infinity.
pub open spec fn range_mean(s: Seq<i64>, lo: int, hi: int) -> int {
    sum_seq(s.subrange(lo, hi)) / (hi - lo)
}

/// Sum of `s[lo..hi]`, with the helper lemma to grow the range one step.
proof fn lemma_sum_push(s: Seq<i64>, lo: int, hi: int)
    requires
        0 <= lo <= hi < s.len(),
    ensures
        sum_seq(s.subrange(lo, hi + 1)) == sum_seq(s.subrange(lo, hi)) + s[hi],
{
    assert(s.subrange(lo, hi + 1).drop_last() =~= s.subrange(lo, hi));
}

/// Sum of a window of bounded values, as a wide integer.
fn window_sum(values: &Vec<i64>, lo: usize, hi: usize) -> (r: i128)
    requires
        lo <= hi <= values@.len(),
        values@.len() <= MAX_LEN,
        values_bounded(values@),
    ensures
        r as int == sum_seq(values@.subrange(lo as int, hi as int)),
        -((hi - lo) * (VAL_BOUND as int)) <= r as int <= (hi - lo) * (VAL_BOUND as int),
{
    let mut acc: i128 = 0;
    let mut k: usize = lo;
    proof {
        assert(values@.subrange(lo as int, lo as int) =~= Seq::<i64>::empty());
    }
    while k < hi
        invariant
            lo <= k <= hi <= values@.len(),
            values_bounded(values@),
            acc as int == sum_seq(values@.subrange(lo as int, k as int)),
            -((k - lo) * (VAL_BOUND as int)) <= acc as int <= (k - lo) * (VAL_BOUND as int),
        decreases hi - k,
    {
        proof {
            lemma_sum_push(values@, lo as int, k as int);
        }
        acc = acc + values[k] as i128;
        k = k + 1;
    }
    acc
}

/// Mean of a window, rounded toward negative infinity, within the value
/// bound.
fn window_mean(values: &Vec<i64>, lo: usize, hi: usize) -> (r: i64)
    requires
        lo < hi <= values@.len(),
        values@.len() <= MAX_LEN,
        values_bounded(values@),
    ensures
        r as int == range_mean(values@, lo as int, hi as int),
        -(VAL_BOUND as int) <= r as int <= VAL_BOUND as int,
{
    let s = window_sum(values, lo, hi);
    let m = crate::div_floor_i128(s, (hi - lo) as i128);
    proof {
        let w = hi - lo;
        lemma_div_is_ordered(s as int, w * (VAL_BOUND as int), w as int);
        lemma_div_is_ordered(-(w * (VAL_BOUND as int)), s as int, w as int);
        lemma_div_multiples_vanish(VAL_BOUND as int, w as int);
        lemma_div_multiples_vanish(-(VAL_BOUND as int), w as int);
    }
    m as i64
}

/// Simple moving average: one `(last index of window, window mean)` pair
/// per full window. Empty input or a zero window gives no points.
pub fn calculate_sma(values: &Vec<i64>, window: usize) -> (r: Vec<(i64, i64)>)
    requires
        values@.len() <= MAX_LEN,
        values_bounded(values@),
    ensures
        (values@.len() == 0 || window == 0 || values@.len() < window) ==> r@.len() == 0,
        (values@.len() > 0 && 0 < window <= values@.len()) ==> r@.len() == values@.len()
            - window + 1,
        forall|k: int| 0 <= k < r@.len() ==> (#[trigger] r@[k]).0 == k + window - 1
            && r@[k].1 as int == range_mean(values@, k, k + window as int),
{
    let mut out: Vec<(i64, i64)> = Vec::new();
    if values.len() == 0 || window == 0 || values.len() < window {
        return out;
    }
    let mut i: usize = window - 1;
    while i < values.len()
        invariant
            window >= 1,
            window - 1 <= i <= values@.len(),
            values@.len() <= MAX_LEN,
            values_bounded(values@),
            out@.len() == i + 1 - window,
            forall|k: int| 0 <= k < out@.len() ==> (#[trigger] out@[k]).0 == k + window - 1
                && out@[k].1 as int == range_mean(values@, k, k + window as int),
        decreases values@.len() - i,
    {
        let avg = window_mean(values, i + 1 - window, i + 1);
        out.push((i as i64, avg));
        i = i + 1;
    }
    out
}

/// Exponentially weighted moving average value at index `i`, for the
/// fixed-point smoothing constant `lambda`: the first value seeds the
/// average, and each step blends `lambda` of the new value with the rest
/// of the previous average (quotient rounded toward negative infinity).
pub open spec fn ewma_spec(s: Seq<i64>, lambda: int, i: int) -> int
    decreases i,
{
    if i <= 0 {
        s[0] as int
    } else {
        (lambda * s[i] + ((crate::SCALE as int) - lambda) * ewma_spec(s, lambda, i - 1)) / (
        crate::SCALE as int)
    }
}

proof fn lemma_ewma_bounded(s: Seq<i64>, lambda: int, i: int)
    requires
        values_bounded(s),
        0 <= i < s.len(),
        0 <= lambda <= crate::SCALE as int,
    ensures
        -(VAL_BOUND as int) <= ewma_spec(s, lambda, i) <= VAL_BOUND as int,
    decreases i,
{
    let sc = crate::SCALE as int;
    if i <= 0 {
        assert(-VAL_BOUND <= s[0] <= VAL_BOUND);
    } else {
        lemma_ewma_bounded(s, lambda, i - 1);
        let e = ewma_spec(s, lambda, i - 1);
        assert(-((VAL_BOUND as int) * sc) <= lambda * s[i] + (sc - lambda) * e
            <= (VAL_BOUND as int) * sc) by (nonlinear_arith)
            requires
                0 <= lambda <= sc,
                -(VAL_BOUND as int) <= s[i] as int <= VAL_BOUND as int,
                -(VAL_BOUND as int) <= e <= VAL_BOUND as int;
        lemma_div_is_ordered(lambda * s[i] + (sc - lambda) * e, (VAL_BOUND as int) * sc, sc);
        lemma_div_is_ordered(-((VAL_BOUND as int) * sc), lambda * s[i] + (sc - lambda) * e,
            sc);
        lemma_div_multiples_vanish(VAL_BOUND as int, sc);
        lemma_div_multiples_vanish(-(VAL_BOUND as int), sc);
        vstd::arithmetic::mul::lemma_mul_is_commutative(sc, VAL_BOUND as int);
        vstd::arithmetic::mul::lemma_mul_is_commutative(sc, -(VAL_BOUND as int));
    }
}

/// Exponentially weighted moving average overlay: one `(index, average)`
/// pair per input point; see [`ewma_spec`].
pub fn calculate_ewma(values: &Vec<i64>, lambda: i64) -> (r: Vec<(i64, i64)>)
    requires
        values@.len() <= MAX_LEN,
        values_bounded(values@),
        0 <= lambda <= crate::SCALE,
    ensures
        values@.len() == 0 ==> r@.len() == 0,
        values@.len() > 0 ==> r@.len() == values@.len(),
        forall|k: int| 0 <= k < r@.len() ==> (#[trigger] r@[k]).0 == k && r@[k].1 as int
            == ewma_spec(values@, lambda as int, k),
{
    let mut out: Vec<(i64, i64)> = Vec::new();
    if values.len() == 0 {
        return out;
    }
    let mut e: i64 = values[0];
    out.push((0, e));
    let mut i: usize = 1;
    while i < values.len()
        invariant
            1 <= i <= values@.len(),
            values@.len() <= MAX_LEN,
            values_bounded(values@),
            0 <= lambda <= crate::SCALE,
            out@.len() == i,
            e as int == ewma_spec(values@, lambda as int, i - 1),
            -(VAL_BOUND as int) <= e as int <= VAL_BOUND as int,
            forall|k: int| 0 <= k < out@.len() ==> (#[trigger] out@[k]).0 == k
                && out@[k].1 as int == ewma_spec(values@, lambda as int, k),
        decreases values@.len() - i,
    {
        let sc = crate::SCALE as i128;
        proof {
            assert(-((VAL_BOUND as int) * (crate::SCALE as int)) <= (lambda as int) * (
            values@[i as int] as int) + ((crate::SCALE as int) - lambda as int) * (e as int)
                <= (VAL_BOUND as int) * (crate::SCALE as int)
                && -((VAL_BOUND as int) * (crate::SCALE as int)) <= (lambda as int) * (
            values@[i as int] as int) <= (VAL_BOUND as int) * (crate::SCALE as int)
                && -((VAL_BOUND as int) * (crate::SCALE as int)) <= ((crate::SCALE as int)
                - lambda as int) * (e as int) <= (VAL_BOUND as int) * (crate::SCALE as int))
                by (nonlinear_arith)
                requires
                    0 <= lambda as int <= crate::SCALE as int,
                    -(VAL_BOUND as int) <= values@[i as int] as int <= VAL_BOUND as int,
                    -(VAL_BOUND as int) <= e as int <= VAL_BOUND as int;
        }
        let num: i128 = (lambda as i128) * (values[i] as i128) + (sc - lambda as i128) * (
        e as i128);
        let e2 = crate::div_floor_i128(num, sc);
        proof {
            lemma_ewma_bounded(values@, lambda as int, i as int);
        }
        e = e2 as i64;
        out.push((i as i64, e));
        i = i + 1;
    }
    out
}

/// Box plot summary `(lower whisker, q1, median, q3, upper whisker)`:
/// quartiles at the plain indices `len / 4` and `3 * len / 4` of the
/// ascending rearrangement (deliberately coarser than the interpolated
/// percentiles of the statistics panel), whiskers at the most extreme
/// values within 1.5 interquartile ranges of the quartiles, clamped to the
/// data extremes when no value qualifies. `None` for empty input.
pub fn calculate_boxplot_stats(values: &Vec<i64>) -> (r: Option<(i64, i64, i64, i64, i64)>)
    requires
        values@.len() <= MAX_LEN,
        values_bounded(values@),
    ensures
        r is Some <==> values@.len() > 0,
        values@.len() > 0 ==> {
            let sorted = values@.sort_by(value_leq());
            let n = values@.len() as int;
            let q1 = sorted[n / 4] as int;
            let q3 = sorted[3 * n / 4] as int;
            let lo_t = q1 - 3 * (q3 - q1) / 2;
            let hi_t = q3 + 3 * (q3 - q1) / 2;
            match r {
                Some(b) => {
                    &&& b.1 as int == q1
                    &&& b.2 as int == median_spec(values@)
                    &&& b.3 as int == q3
                    &&& (exists|k: int| 0 <= k < n && sorted[k] == b.0 && sorted[k] >= lo_t
                        && (forall|j: int| 0 <= j < k ==> sorted[j] < lo_t)) || ((
                    forall|j: int| 0 <= j < n ==> sorted[j] < lo_t) && b.0 == sorted[0])
                    &&& (exists|k: int| 0 <= k < n && sorted[k] == b.4 && sorted[k] <= hi_t
                        && (forall|j: int| k < j < n ==> sorted[j] > hi_t)) || ((
                    forall|j: int| 0 <= j < n ==> sorted[j] > hi_t) && b.4 == sorted[n - 1])
                },
                None => false,
            }
        },
{
    if values.len() == 0 {
        return None;
    }
    let sorted = crate::stats::sort_values(values);
    proof {
        broadcast use vstd::seq_lib::group_to_multiset_ensures;

        assert forall|k: int| 0 <= k < sorted@.len() implies
            -VAL_BOUND <= #[trigger] sorted@[k] <= VAL_BOUND by {
            assert(sorted@.contains(sorted@[k]));
            assert(sorted@.to_multiset().count(sorted@[k]) > 0);
            assert(values@.contains(sorted@[k]));
        }
    }
    let n = values.len();
    let q1 = sorted[n / 4];
    let q3 = sorted[(3 * n) / 4];
    proof {
        assert(3 * (n as int) / 4 < n as int) by {
            if n >= 4 {
                lemma_div_is_ordered(3 * (n as int), 4 * (n as int) - 4, 4);
                lemma_div_multiples_vanish(n - 1, 4);
            } else if n == 1 {
                assert(3int / 4 == 0);
            } else if n == 2 {
                assert(6int / 4 == 1);
            } else {
                assert(9int / 4 == 2);
            }
        }
        lemma_div_pos_is_pos(3 * (n as int), 4);
        lemma_div_pos_is_pos(n as int, 4);
        lemma_div_is_ordered(n as int, 3 * (n as int), 4);
    }
    let median = crate::stats::calculate_median(values);
    let iqr: i64 = q3 - q1;
    let half: i128 = (3 * (iqr as i128)) / 2;
    let lo_t: i128 = (q1 as i128) - half;
    let hi_t: i128 = (q3 as i128) + half;
    proof {
        assert(half as int == 3 * ((q3 as int) - (q1 as int)) / 2);
    }

    let mut lw: i64 = sorted[0];
    let mut found_lo = false;
    let mut k: usize = 0;
    while k < n
        invariant
            0 <= k <= n,
            n == sorted@.len(),
            found_lo ==> exists|j: int| 0 <= j < k as int && sorted@[j] == lw
                && (sorted@[j] as int) >= lo_t as int && (forall|x: int| 0 <= x < j
                ==> (#[trigger] sorted@[x] as int) < lo_t as int),
            !found_lo ==> (forall|x: int| 0 <= x < k as int
                ==> (#[trigger] sorted@[x] as int) < lo_t as int) && lw == sorted@[0],
        decreases n - k,
    {
        if !found_lo {
            if (sorted[k] as i128) >= lo_t {
                lw = sorted[k];
                found_lo = true;
                proof {
                    assert(sorted@[k as int] == lw);
                }
            }
        }
        k = k + 1;
    }

    let mut uw: i64 = sorted[n - 1];
    let mut found_hi = false;
    let mut k2: usize = n;
    while k2 > 0
        invariant
            0 <= k2 <= n,
            n == sorted@.len(),
            n >= 1,
            found_hi ==> exists|j: int| k2 as int <= j < n as int && sorted@[j] == uw
                && (sorted@[j] as int) <= hi_t as int && (forall|x: int| j < x < n as int
                ==> (#[trigger] sorted@[x] as int) > hi_t as int),
            !found_hi ==> (forall|x: int| k2 as int <= x < n as int
                ==> (#[trigger] sorted@[x] as int) > hi_t as int) && uw == sorted@[
            n as int - 1],
        decreases k2,
    {
        k2 = k2 - 1;
        if !found_hi {
            if (sorted[k2] as i128) <= hi_t {
                uw = sorted[k2];
                found_hi = true;
                proof {
                    assert(sorted@[k2 as int] == uw);
                }
            }
        }
    }
    Some((lw, q1, median, q3, uw))
}

/// The published control-chart constants `(A2, D3, D4)` for subgroup sizes
/// two through ten, fixed point.
pub fn get_xbarr_constants(n: usize) -> (r: Option<(i64, i64, i64)>)
    ensures
        r == xbarr_constants_spec(n as int),
{
    match n {
        2 => Some((1971323, 0, 3425698)),
        3 => Some((1072693, 0, 2699035)),
        4 => Some((764412, 0, 2392850)),
        5 => Some((605028, 0, 2216690)),
        6 => Some((506462, 0, 2101346)),
        7 => Some((439353, 79692, 2017460)),
        8 => Some((391119, 142606, 1954546)),
        9 => Some((353370, 192938, 1904214)),
        10 => Some((322961, 233832, 1863320)),
        _ => None,
    }
}

/// The constants table; sizes outside two through ten have none.
pub open spec fn xbarr_constants_spec(n: int) -> Option<(i64, i64, i64)> {
    if n == 2 {
        Some((1971323i64, 0i64, 3425698i64))
    } else if n == 3 {
        Some((1072693i64, 0i64, 2699035i64))
    } else if n == 4 {
        Some((764412i64, 0i64, 2392850i64))
    } else if n == 5 {
        Some((605028i64, 0i64, 2216690i64))
    } else if n == 6 {
        Some((506462i64, 0i64, 2101346i64))
    } else if n == 7 {
        Some((439353i64, 79692i64, 2017460i64))
    } else if n == 8 {
        Some((391119i64, 142606i64, 1954546i64))
    } else if n == 9 {
        Some((353370i64, 192938i64, 1904214i64))
    } else if n == 10 {
        Some((322961i64, 233832i64, 1863320i64))
    } else {
        None
    }
}

/// The constants actually used for a subgroup size: the table entry, or
/// the size-5 constants as a documented silent fallback outside the table.
pub open spec fn xbarr_constants_or_default(n: int) -> (i64, i64, i64) {
    match xbarr_constants_spec(n) {
        Some(c) => c,
        None => (605028i64, 0i64, 2216690i64),
    }
}

/// An X-bar/R chart: per-subgroup means and ranges with their control
/// limits.
#[derive(Clone, Debug)]
pub struct XbarRChart {
    /// `(subgroup index, subgroup mean)` points.
    pub xbar_points: Vec<(i64, i64)>,
    /// `(subgroup index, subgroup range)` points.
    pub r_points: Vec<(i64, i64)>,
    /// Grand mean of the subgroup means.
    pub xbar_mean: i64,
    /// Upper control limit for means.
    pub xbar_ucl: i64,
    /// Lower control limit for means.
    pub xbar_lcl: i64,
    /// Mean subgroup range.
    pub r_mean: i64,
    /// Upper control limit for ranges.
    pub r_ucl: i64,
    /// Lower control limit for ranges.
    pub r_lcl: i64,
}

/// Mean of subgroup `i` (of width `size`).
pub open spec fn subgroup_mean(s: Seq<i64>, size: int, i: int) -> int {
    range_mean(s, i * size, i * size + size)
}

/// Range (max minus min) of subgroup `i`.
pub open spec fn subgroup_range(s: Seq<i64>, size: int, i: int) -> int {
    max_seq(s.subrange(i * size, i * size + size)) - min_seq(
        s.subrange(i * size, i * size + size))
}

/// Sum of the subgroup means of subgroups `0..k`.
pub open spec fn sum_sub_means(s: Seq<i64>, size: int, k: int) -> int
    decreases k,
{
    if k <= 0 {
        0
    } else {
        sum_sub_means(s, size, k - 1) + subgroup_mean(s, size, k - 1)
    }
}

/// Sum of the subgroup ranges of subgroups `0..k`.
pub open spec fn sum_sub_ranges(s: Seq<i64>, size: int, k: int) -> int
    decreases k,
{
    if k <= 0 {
        0
    } else {
        sum_sub_ranges(s, size, k - 1) + subgroup_range(s, size, k - 1)
    }
}

/// X-bar/R chart: split the values into consecutive subgroups of
/// `subgroup_size` (any remainder rows are dropped), chart each subgroup's
/// mean and range, and derive control limits from the published constants
/// (falling back to the size-5 constants outside the table). Empty input
/// or a subgroup size below 2 gives the all-empty chart.
pub fn calculate_xbarr(values: &Vec<i64>, subgroup_size: usize) -> (r: XbarRChart)
    requires
        values@.len() <= MAX_LEN,
        values_bounded(values@),
    ensures
        (values@.len() == 0 || subgroup_size < 2 || values@.len() < subgroup_size)
            ==> r.xbar_points@.len() == 0 && r.r_points@.len() == 0 && r.xbar_mean == 0
            && r.xbar_ucl == 0 && r.xbar_lcl == 0 && r.r_mean == 0 && r.r_ucl == 0
            && r.r_lcl == 0,
        (values@.len() > 0 && 2 <= subgroup_size <= values@.len()) ==> {
            let size = subgroup_size as int;
            let num = values@.len() as int / size;
            let consts = xbarr_constants_or_default(size);
            let xm = sum_sub_means(values@, size, num) / num;
            let rm = sum_sub_ranges(values@, size, num) / num;
            &&& r.xbar_points@.len() == num
            &&& r.r_points@.len() == num
            &&& (forall|k: int| 0 <= k < num ==> (#[trigger] r.xbar_points@[k]).0 == k
                && r.xbar_points@[k].1 as int == subgroup_mean(values@, size, k))
            &&& (forall|k: int| 0 <= k < num ==> (#[trigger] r.r_points@[k]).0 == k
                && r.r_points@[k].1 as int == subgroup_range(values@, size, k))
            &&& r.xbar_mean as int == xm
            &&& r.r_mean as int == rm
            &&& r.xbar_ucl as int == xm + (consts.0 as int) * rm / (crate::SCALE as int)
            &&& r.xbar_lcl as int == xm - (consts.0 as int) * rm / (crate::SCALE as int)
            &&& r.r_ucl as int == (consts.2 as int) * rm / (crate::SCALE as int)
            &&& r.r_lcl as int == (consts.1 as int) * rm / (crate::SCALE as int)
        },
{
    let empty = XbarRChart {
        xbar_points: Vec::new(),
        r_points: Vec::new(),
        xbar_mean: 0,
        xbar_ucl: 0,
        xbar_lcl: 0,
        r_mean: 0,
        r_ucl: 0,
        r_lcl: 0,
    };
    if values.len() == 0 || subgroup_size < 2 || values.len() < subgroup_size {
        return empty;
    }
    let size = subgroup_size;
    let num = values.len() / size;
    proof {
        lemma_div_pos_is_pos(values@.len() as int, size as int);
        vstd::arithmetic::div_mod::lemma_fundamental_div_mod(values@.len() as int,
            size as int);
        assert(values@.len() as int / size as int >= 1) by {
            vstd::arithmetic::div_mod::lemma_div_non_zero(values@.len() as int, size as int);
        }
    }
    let mut xbar_points: Vec<(i64, i64)> = Vec::new();
    let mut r_points: Vec<(i64, i64)> = Vec::new();
    let mut sum_m: i128 = 0;
    let mut sum_r: i128 = 0;
    let mut i: usize = 0;
    while i < num
        invariant
            0 <= i <= num,
            num == values@.len() as int / size as int,
            2 <= size,
            num * size <= values@.len(),
            num <= values@.len(),
            values@.len() <= MAX_LEN,
            values_bounded(values@),
            xbar_points@.len() == i,
            r_points@.len() == i,
            sum_m as int == sum_sub_means(values@, size as int, i as int),
            sum_r as int == sum_sub_ranges(values@, size as int, i as int),
            -((i as int) * (VAL_BOUND as int)) <= sum_m as int <= (i as int) * (
            VAL_BOUND as int),
            0 <= sum_r as int <= (i as int) * 0x10_0000_0000_0000,
            forall|k: int| 0 <= k < i as int ==> (#[trigger] xbar_points@[k]).0 == k
                && xbar_points@[k].1 as int == subgroup_mean(values@, size as int, k),
            forall|k: int| 0 <= k < i as int ==> (#[trigger] r_points@[k]).0 == k
                && r_points@[k].1 as int == subgroup_range(values@, size as int, k),
        decreases num - i,
    {
        proof {
            assert((i as int + 1) * (size as int) <= (num as int) * (size as int) && 0 <= (
            i as int) * (size as int) && (i as int) * (size as int) + size as int == (
            i as int + 1) * (size as int) && (num as int) * (size as int)
                <= values@.len()) by (nonlinear_arith)
                requires
                    0 <= i as int,
                    (i as int) < num as int,
                    2 <= size as int,
                    (num as int) * (size as int) <= values@.len();
        }
        let lo = i * size;
        let hi = lo + size;
        let m = window_mean(values, lo, hi);
        let mut mn: i64 = values[lo];
        let mut mx: i64 = values[lo];
        proof {
            assert(values@.subrange(lo as int, lo as int + 1).len() == 1);
            assert(values@.subrange(lo as int, lo as int + 1)[0] == values@[lo as int]);
            assert(in_bound_at(values@, lo as int));
        }
        let mut k: usize = lo + 1;
        while k < hi
            invariant
                lo < k <= hi,
                hi <= values@.len(),
                lo + 1 <= hi,
                values_bounded(values@),
                mn as int == min_seq(values@.subrange(lo as int, k as int)),
                mx as int == max_seq(values@.subrange(lo as int, k as int)),
                -VAL_BOUND <= mn <= VAL_BOUND,
                -VAL_BOUND <= mx <= VAL_BOUND,
            decreases hi - k,
        {
            let ghost pre = values@.subrange(lo as int, k as int);
            if values[k] < mn {
                mn = values[k];
            }
            if values[k] > mx {
                mx = values[k];
            }
            k = k + 1;
            proof {
                assert(values@.subrange(lo as int, k as int).drop_last() =~= pre);
                assert(in_bound_at(values@, k - 1));
            }
        }
        proof {
            assert(values@.subrange(lo as int, hi as int).len() >= 1);
            assert(mn <= mx) by {
                crate::stats::lemma_min_max(values@.subrange(lo as int, hi as int));
            }
        }
        let rng: i64 = mx - mn;
        xbar_points.push((i as i64, m));
        r_points.push((i as i64, rng));
        sum_m = sum_m + m as i128;
        sum_r = sum_r + rng as i128;
        i = i + 1;
    }
    let xm_w = crate::div_floor_i128(sum_m, num as i128);
    let rm_w = crate::div_floor_i128(sum_r, num as i128);
    proof {
        lemma_div_is_ordered(sum_m as int, num as int * (VAL_BOUND as int), num as int);
        lemma_div_is_ordered(-(num as int * (VAL_BOUND as int)), sum_m as int, num as int);
        lemma_div_multiples_vanish(VAL_BOUND as int, num as int);
        lemma_div_multiples_vanish(-(VAL_BOUND as int), num as int);
        lemma_div_pos_is_pos(sum_r as int, num as int);
        lemma_div_is_ordered(sum_r as int, num as int * 0x10_0000_0000_0000, num as int);
        lemma_div_multiples_vanish(0x10_0000_0000_0000, num as int);
    }
    let xm: i64 = xm_w as i64;
    let rm: i64 = rm_w as i64;
    let (a2, d3, d4) = match get_xbarr_constants(size) {
        Some(c) => c,
        None => (605028, 0, 2216690),
    };
    proof {
        assert(0 <= (a2 as int) * (rm as int) <= 0x8000_0000_0000_0000_0000int
            && 0 <= (d3 as int) * (rm as int) <= 0x8000_0000_0000_0000_0000int
            && 0 <= (d4 as int) * (rm as int) <= 0x8000_0000_0000_0000_0000int)
            by (nonlinear_arith)
            requires
                0 <= a2 as int <= 0x40_0000int,
                0 <= d3 as int <= 0x40_0000int,
                0 <= d4 as int <= 0x40_0000int,
                0 <= rm as int <= 0x10_0000_0000_0000int;
    }
    let band = crate::div_floor_i128((a2 as i128) * (rm as i128), crate::SCALE as i128);
    let rucl = crate::div_floor_i128((d4 as i128) * (rm as i128), crate::SCALE as i128);
    let rlcl = crate::div_floor_i128((d3 as i128) * (rm as i128), crate::SCALE as i128);
    proof {
        let sc = crate::SCALE as int;
        lemma_div_pos_is_pos((a2 as int) * (rm as int), sc);
        lemma_div_pos_is_pos((d4 as int) * (rm as int), sc);
        lemma_div_pos_is_pos((d3 as int) * (rm as int), sc);
        lemma_div_is_ordered((a2 as int) * (rm as int), sc * 0x800_0000_0000_0000int, sc);
        lemma_div_is_ordered((d4 as int) * (rm as int), sc * 0x800_0000_0000_0000int, sc);
        lemma_div_is_ordered((d3 as int) * (rm as int), sc * 0x800_0000_0000_0000int, sc);
        lemma_div_multiples_vanish(0x800_0000_0000_0000int, sc);
    }
    XbarRChart {
        xbar_points,
        r_points,
        xbar_mean: xm,
        xbar_ucl: xm + band as i64,
        xbar_lcl: xm - band as i64,
        r_mean: rm,
        r_ucl: rucl as i64,
        r_lcl: rlcl as i64,
    }
}

/// Value-bound trigger helper.
pub open spec fn in_bound_at(s: Seq<i64>, i: int) -> bool {
    -VAL_BOUND <= s[i] <= VAL_BOUND
}

/// The grouping key of a value in the Pareto chart: the value in
/// hundredths, rounded half away from zero (two-decimal grouping).
pub open spec fn pareto_key(v: int) -> int {
    if v >= 0 {
        (2 * v * 100 + crate::SCALE as int) / (2 * (crate::SCALE as int))
    } else {
        -((2 * (-v) * 100 + crate::SCALE as int) / (2 * (crate::SCALE as int)))
    }
}

/// How many values of `s` group under `k`.
pub open spec fn pareto_count(s: Seq<i64>, k: int) -> int
    decreases s.len(),
{
    if s.len() == 0 {
        0
    } else {
        pareto_count(s.drop_last(), k) + (if pareto_key(s.last() as int) == k {
            1int
        } else {
            0int
        })
    }
}

/// Pareto order: higher count first, equal counts by ascending key.
pub open spec fn pareto_le(a: (i64, usize), b: (i64, usize)) -> bool {
    a.1 > b.1 || (a.1 == b.1 && a.0 <= b.0)
}

/// Sum of the counts of the first `i` frequency entries.
pub open spec fn counts_prefix(e: Seq<(i64, usize)>, i: int) -> int
    decreases i,
{
    if i <= 0 {
        0
    } else {
        counts_prefix(e, i - 1) + e[i - 1].1
    }
}

/// The Pareto chart key of a value, at its machine type.
fn pareto_key_exec(v: i64) -> (r: i64)
    requires
        -VAL_BOUND <= v <= VAL_BOUND,
    ensures
        r as int == pareto_key(v as int),
        -VAL_BOUND <= r <= VAL_BOUND,
{
    let d: i128 = 2 * (crate::SCALE as i128);
    if v >= 0 {
        let w: i128 = 2 * (v as i128) * 100 + crate::SCALE as i128;
        proof {
            assert(0 <= w as int && w as int <= (d as int) * (VAL_BOUND as int))
                by (nonlinear_arith)
                requires
                    0 <= v as int <= VAL_BOUND as int,
                    VAL_BOUND == 0x8_0000_0000_0000i64,
                    crate::SCALE == 1048576i64,
                    d as int == 2 * (crate::SCALE as int),
                    w as int == 2 * (v as int) * 100 + crate::SCALE as int;
            lemma_div_pos_is_pos(w as int, d as int);
            lemma_div_is_ordered(w as int, (d as int) * (VAL_BOUND as int), d as int);
            lemma_div_multiples_vanish(VAL_BOUND as int, d as int);
        }
        (w / d) as i64
    } else {
        let w: i128 = 2 * (-(v as i128)) * 100 + crate::SCALE as i128;
        proof {
            assert(0 <= w as int && w as int <= (d as int) * (VAL_BOUND as int))
                by (nonlinear_arith)
                requires
                    0 < -(v as int) <= VAL_BOUND as int,
                    VAL_BOUND == 0x8_0000_0000_0000i64,
                    crate::SCALE == 1048576i64,
                    d as int == 2 * (crate::SCALE as int),
                    w as int == 2 * (-(v as int)) * 100 + crate::SCALE as int;
            lemma_div_pos_is_pos(w as int, d as int);
            lemma_div_is_ordered(w as int, (d as int) * (VAL_BOUND as int), d as int);
            lemma_div_multiples_vanish(VAL_BOUND as int, d as int);
        }
        -((w / d) as i64)
    }
}

/// Pareto transform: group the values by [`pareto_key`] (two-decimal
/// rounding of the real value), order the groups by descending count with
/// ties by ascending key, and return the frequency table along with the
/// cumulative percentages (fixed point, 0 to 100).
#[verifier::rlimit(100)]
#[verifier::spinoff_prover]
pub fn calculate_pareto(values: &Vec<i64>) -> (r: (Vec<(i64, usize)>, Vec<i64>))
    requires
        values@.len() <= MAX_LEN,
        values_bounded(values@),
    ensures
        forall|j: int| 0 <= j < r.0@.len() ==> (#[trigger] r.0@[j]).1 > 0 && r.0@[j].1
            == pareto_count(values@, r.0@[j].0 as int),
        forall|j1: int, j2: int| 0 <= j1 < j2 < r.0@.len()
            ==> (#[trigger] r.0@[j1]).0 != (#[trigger] r.0@[j2]).0,
        forall|j1: int, j2: int| 0 <= j1 < j2 < r.0@.len() ==> pareto_le(
            #[trigger] r.0@[j1], #[trigger] r.0@[j2]),
        forall|i: int| #![trigger values@[i]] 0 <= i < values@.len() ==> find_group(
            r.0@, pareto_key(values@[i] as int), 0) < r.0@.len(),
        r.1@.len() == r.0@.len(),
        values@.len() > 0 ==> forall|i: int| 0 <= i < r.1@.len() ==> #[trigger] r.1@[
        i] as int == (if counts_prefix(r.0@, i + 1) <= values@.len() {
            counts_prefix(r.0@, i + 1)
        } else {
            values@.len() as int
        }) * 100 * (crate::SCALE as int) / values@.len() as int,
{
    // Group.
    let mut groups: Vec<(i64, usize)> = Vec::new();
    let mut i: usize = 0;
    proof {
        assert(values@.subrange(0, 0) =~= Seq::<i64>::empty());
    }
    while i < values.len()
        invariant
            0 <= i <= values@.len(),
            values@.len() <= MAX_LEN,
            values_bounded(values@),
            forall|j: int| 0 <= j < groups@.len() ==> (#[trigger] groups@[j]).1 > 0
                && groups@[j].1 == pareto_count(values@.subrange(0, i as int),
                groups@[j].0 as int),
            forall|j1: int, j2: int| 0 <= j1 < j2 < groups@.len()
                ==> (#[trigger] groups@[j1]).0 != (#[trigger] groups@[j2]).0,
            forall|x: int| #![trigger values@[x]] 0 <= x < i as int ==> find_group(
                groups@, pareto_key(values@[x] as int), 0) < groups@.len(),
            forall|j: int| 0 <= j < groups@.len() ==> -VAL_BOUND
                <= (#[trigger] groups@[j]).0 <= VAL_BOUND,
            forall|j: int| 0 <= j < groups@.len() ==> (#[trigger] groups@[j]).1
                <= i,
            groups@.len() <= i,
        decreases values@.len() - i,
    {
        let key = pareto_key_exec(values[i]);
        let ghost pre = groups@;
        let mut found = false;
        let mut found_at: usize = 0;
        let mut g: usize = 0;
        while g < groups.len()
            invariant
                0 <= g <= groups@.len(),
                groups@ == pre,
                !found ==> forall|j: int| 0 <= j < g as int ==> (#[trigger] pre[j]).0
                    != key,
                found ==> found_at < pre.len() && pre[found_at as int].0 == key
                    && forall|j: int| 0 <= j < found_at as int ==> (#[trigger] pre[j]).0
                    != key,
            decreases groups@.len() - g,
        {
            if !found && groups[g].0 == key {
                found = true;
                found_at = g;
            }
            g = g + 1;
        }
        if found {
            let c = groups[found_at].1;
            groups.set(found_at, (key, c + 1));
            proof {
                assert forall|j: int| 0 <= j < groups@.len() implies
                    ((#[trigger] groups@[j]).1 > 0 && groups@[j].1 == pareto_count(
                    values@.subrange(0, i + 1), groups@[j].0 as int)) by {
                    assert(values@.subrange(0, i + 1).drop_last()
                        =~= values@.subrange(0, i as int));
                    if j != found_at as int {
                        assert(groups@[j] == pre[j]);
                    }
                }
            }
        } else {
            groups.push((key, 1));
            proof {
                assert forall|j: int| 0 <= j < groups@.len() implies
                    ((#[trigger] groups@[j]).1 > 0 && groups@[j].1 == pareto_count(
                    values@.subrange(0, i + 1), groups@[j].0 as int)) by {
                    assert(values@.subrange(0, i + 1).drop_last()
                        =~= values@.subrange(0, i as int));
                    if j < pre.len() {
                        assert(groups@[j] == pre[j]);
                    } else {
                        assert(groups@[j] == (key, 1usize));
                        assert(keys_cover(values@, i as int, pre)) by {
                            assert forall|x: int| #![trigger values@[x]] 0 <= x < i as int
                                implies find_group(pre, pareto_key(values@[x] as int), 0)
                                < pre.len() by {
                            }
                        }
                        lemma_pareto_count_absent(values@, i as int, key as int, pre);
                    }
                }
            }
        }
        i = i + 1;
        proof {
            assert forall|j: int| 0 <= j < groups@.len() && j < pre.len() implies
                (#[trigger] groups@[j]).0 == pre[j].0 by {
                if found && j == found_at as int {
                    assert(groups@[j].0 == key && pre[j].0 == key);
                }
            }
            assert forall|x: int| #![trigger values@[x]] 0 <= x < i as int implies
                find_group(groups@, pareto_key(values@[x] as int), 0)
                < groups@.len() by {
                let kx = pareto_key(values@[x] as int);
                lemma_find_group(groups@, kx, 0);
                if x < i - 1 {
                    lemma_find_group(pre, kx, 0);
                    let fgo = find_group(pre, kx, 0);
                    assert(fgo < pre.len());
                    assert(pre[fgo].0 as int == kx);
                    assert(groups@[fgo].0 == pre[fgo].0);
                    if find_group(groups@, kx, 0) == groups@.len() {
                        assert(groups@[fgo].0 as int != kx);
                        assert(false);
                    }
                } else {
                    let w: int = if found {
                        found_at as int
                    } else {
                        groups@.len() - 1
                    };
                    assert(groups@[w].0 == key);
                    if find_group(groups@, kx, 0) == groups@.len() {
                        assert(groups@[w].0 as int != kx);
                        assert(false);
                    }
                }
            }
        }
    }
    proof {
        assert(values@.subrange(0, values@.len() as int) =~= values@);
    }

    // Order by descending count, ties by ascending key.
    let sorted = sort_pareto(&groups);
    proof {
        broadcast use vstd::seq_lib::group_to_multiset_ensures;

        assert forall|j: int| 0 <= j < sorted@.len() implies ((#[trigger] sorted@[j]).1 > 0
            && sorted@[j].1 == pareto_count(values@, sorted@[j].0 as int)
            && sorted@[j].1 <= values@.len()) by {
            assert(sorted@.contains(sorted@[j]));
            assert(sorted@.to_multiset().count(sorted@[j]) > 0);
            assert(groups@.contains(sorted@[j]));
            let g = choose|g: int| 0 <= g < groups@.len() && groups@[g] == sorted@[j];
        }
        assert forall|j1: int, j2: int| 0 <= j1 < j2 < sorted@.len() implies
            (#[trigger] sorted@[j1]).0 != (#[trigger] sorted@[j2]).0 by {
            lemma_same_key_same_entry(groups@, sorted@, j1, j2);
        }
        assert forall|x: int| #![trigger values@[x]] 0 <= x < values@.len() implies
            find_group(sorted@, pareto_key(values@[x] as int), 0) < sorted@.len() by {
            let kx = pareto_key(values@[x] as int);
            lemma_find_group(groups@, kx, 0);
            let g = find_group(groups@, kx, 0);
            assert(g < groups@.len());
            assert(groups@.contains(groups@[g]));
            assert(groups@.to_multiset().count(groups@[g]) > 0);
            assert(sorted@.contains(groups@[g]));
            let j = choose|j: int| 0 <= j < sorted@.len() && sorted@[j] == groups@[g];
            lemma_find_group(sorted@, kx, 0);
            if find_group(sorted@, kx, 0) == sorted@.len() {
                assert(sorted@[j].0 as int != kx);
                assert(false);
            }
        }
    }

    // Cumulative percentages.
    let total = values.len();
    proof {
        broadcast use vstd::seq_lib::group_to_multiset_ensures;

        assert(sorted@.to_multiset().len() == sorted@.len());
        assert(groups@.to_multiset().len() == groups@.len());
        assert(sorted@.len() == groups@.len());
    }
    let mut cum: Vec<i64> = Vec::new();
    let mut acc: u64 = 0;
    let mut k: usize = 0;
    while k < sorted.len()
        invariant
            0 <= k <= sorted@.len(),
            total == values@.len(),
            values@.len() <= MAX_LEN,
            cum@.len() == k,
            acc == counts_prefix(sorted@, k as int),
            sorted@.len() <= values@.len(),
            forall|j: int| 0 <= j < sorted@.len() ==> (#[trigger] sorted@[j]).1
                <= values@.len(),
            acc <= (k as int) * (MAX_LEN as int),
            total > 0 ==> forall|j: int| 0 <= j < k as int ==> #[trigger] cum@[j] as int
                == (if counts_prefix(sorted@, j + 1) <= values@.len() {
                    counts_prefix(sorted@, j + 1)
                } else {
                    values@.len() as int
                }) * 100 * (crate::SCALE as int) / values@.len() as int,
        decreases sorted@.len() - k,
    {
        acc = acc + sorted[k].1 as u64;
        if total > 0 {
            let capped: u64 = if acc > total as u64 {
                total as u64
            } else {
                acc
            };
            proof {
                assert(0 <= (capped as int) * 100 * (crate::SCALE as int)
                    && (capped as int) * 100 * (crate::SCALE as int) <= (total as int)
                    * (100 * (crate::SCALE as int))) by (nonlinear_arith)
                    requires 0 <= capped as int <= total as int,
                        crate::SCALE == 1048576i64;
            }
            let pct = crate::div_floor_i128((capped as i128) * 100 * (
            crate::SCALE as i128), total as i128);
            proof {
                lemma_div_pos_is_pos((capped as int) * 100 * (crate::SCALE as int),
                    total as int);
                lemma_div_is_ordered((capped as int) * 100 * (crate::SCALE as int),
                    (total as int) * (100 * (crate::SCALE as int)), total as int);
                lemma_div_multiples_vanish(100 * (crate::SCALE as int), total as int);
            }
            cum.push(pct as i64);
        } else {
            cum.push(0);
        }
        k = k + 1;
    }
    (sorted, cum)
}

/// Index of the first group entry with this key (the length if none).
pub open spec fn find_group(groups: Seq<(i64, usize)>, key: int, g: int) -> int
    decreases groups.len() - g,
{
    if g < 0 || g >= groups.len() {
        groups.len() as int
    } else if groups[g].0 as int == key {
        g
    } else {
        find_group(groups, key, g + 1)
    }
}

/// The group keys cover every value of the prefix `s[..n]`.
pub open spec fn keys_cover(s: Seq<i64>, n: int, groups: Seq<(i64, usize)>) -> bool {
    forall|x: int| #![trigger s[x]] 0 <= x < n ==> find_group(groups, pareto_key(
        s[x] as int), 0) < groups.len()
}

/// A found index carries the key; an index of the length means no entry
/// carries it.
proof fn lemma_find_group(groups: Seq<(i64, usize)>, key: int, g: int)
    requires
        0 <= g <= groups.len(),
    ensures
        g <= find_group(groups, key, g) <= groups.len(),
        find_group(groups, key, g) < groups.len() ==> groups[find_group(groups, key,
            g)].0 as int == key,
        forall|j: int| g <= j < find_group(groups, key, g)
            ==> (#[trigger] groups[j]).0 as int != key,
    decreases groups.len() - g,
{
    if g < groups.len() && groups[g].0 as int != key {
        lemma_find_group(groups, key, g + 1);
    }
}

/// A key that no group entry carries has a zero count over the prefix the
/// groups were built from.
proof fn lemma_pareto_count_absent(s: Seq<i64>, n: int, key: int, groups: Seq<(i64,
    usize)>)
    requires
        0 <= n <= s.len(),
        keys_cover(s, n, groups),
        forall|j: int| 0 <= j < groups.len() ==> (#[trigger] groups[j]).0 as int != key,
    ensures
        pareto_count(s.subrange(0, n), key) == 0,
    decreases n,
{
    if n == 0 {
        assert(s.subrange(0, 0) =~= Seq::<i64>::empty());
    } else {
        assert(keys_cover(s, n - 1, groups)) by {
            assert forall|x: int| #![trigger s[x]] 0 <= x < n - 1 implies find_group(
                groups, pareto_key(s[x] as int), 0) < groups.len() by {
                assert(0 <= x < n);
            }
        }
        lemma_pareto_count_absent(s, n - 1, key, groups);
        assert(s.subrange(0, n).drop_last() =~= s.subrange(0, n - 1));
        assert(s.subrange(0, n).last() == s[n - 1]);
        if pareto_key(s[n - 1] as int) == key {
            lemma_find_group(groups, key, 0);
            assert(find_group(groups, key, 0) < groups.len());
            assert(false);
        }
    }
}

/// Two sorted positions with the same key come from the same (unique)
/// group entry.
proof fn lemma_same_key_same_entry(groups: Seq<(i64, usize)>, sorted: Seq<(i64, usize)>,
    j1: int, j2: int)
    requires
        sorted.to_multiset() == groups.to_multiset(),
        forall|g1: int, g2: int| 0 <= g1 < g2 < groups.len()
            ==> (#[trigger] groups[g1]).0 != (#[trigger] groups[g2]).0,
        0 <= j1 < j2 < sorted.len(),
    ensures
        sorted[j1].0 != sorted[j2].0,
{
    broadcast use vstd::seq_lib::group_to_multiset_ensures;
    broadcast use vstd::multiset::group_multiset_axioms;

    if sorted[j1].0 != sorted[j2].0 {
    } else if sorted[j1] == sorted[j2] {
        // the same pair twice: its multiplicity in the groups would be two,
        // but distinct keys cap every multiplicity at one
        let e = sorted[j1];
        lemma_dup_multiset(sorted, j1, j2);
        assert(groups.to_multiset().count(e) >= 2);
        lemma_unique_keys_multiplicity(groups, e);
    } else {
        assert(sorted.contains(sorted[j1]));
        assert(sorted.to_multiset().count(sorted[j1]) > 0);
        assert(groups.contains(sorted[j1]));
        assert(sorted.contains(sorted[j2]));
        assert(sorted.to_multiset().count(sorted[j2]) > 0);
        assert(groups.contains(sorted[j2]));
        let g1 = choose|g: int| 0 <= g < groups.len() && groups[g] == sorted[j1];
        let g2 = choose|g: int| 0 <= g < groups.len() && groups[g] == sorted[j2];
        assert(groups[g1].0 == groups[g2].0 && g1 != g2);
    }
}

/// A sequence with one pair at two positions counts it at least twice.
proof fn lemma_dup_multiset(s: Seq<(i64, usize)>, j1: int, j2: int)
    requires
        0 <= j1 < j2 < s.len(),
        s[j1] == s[j2],
    ensures
        s.to_multiset().count(s[j1]) >= 2,
    decreases s.len(),
{
    broadcast use vstd::seq_lib::group_to_multiset_ensures;
    broadcast use vstd::multiset::group_multiset_axioms;

    let e = s[j1];
    let r = s.remove(j2);
    assert(r.to_multiset() =~= s.to_multiset().remove(s[j2]));
    assert(r[j1] == e);
    assert(r.contains(e));
    assert(r.to_multiset().count(e) > 0);
}

/// With pairwise-distinct keys, any pair occurs at most once.
proof fn lemma_unique_keys_multiplicity(groups: Seq<(i64, usize)>, e: (i64, usize))
    requires
        forall|g1: int, g2: int| 0 <= g1 < g2 < groups.len()
            ==> (#[trigger] groups[g1]).0 != (#[trigger] groups[g2]).0,
    ensures
        groups.to_multiset().count(e) <= 1,
    decreases groups.len(),
{
    broadcast use vstd::seq_lib::group_to_multiset_ensures;
    broadcast use vstd::multiset::group_multiset_axioms;

    if groups.to_multiset().count(e) >= 2 {
        assert(groups.to_multiset().count(e) > 0);
        assert(groups.contains(e));
        let g1 = choose|g: int| 0 <= g < groups.len() && groups[g] == e;
        let r = groups.remove(g1);
        assert(r.to_multiset() =~= groups.to_multiset().remove(e));
        assert(r.to_multiset().count(e) > 0);
        assert(r.contains(e));
        let g2 = choose|g: int| 0 <= g < r.len() && r[g] == e;
        if g2 < g1 {
            assert(groups[g2] == e);
        } else {
            assert(groups[g2 + 1] == e);
        }
        assert(false);
    }
}

/// Insertion sort of the frequency table by the Pareto order.
fn sort_pareto(groups: &Vec<(i64, usize)>) -> (r: Vec<(i64, usize)>)
    ensures
        r@.to_multiset() == groups@.to_multiset(),
        forall|j1: int, j2: int| 0 <= j1 < j2 < r@.len() ==> pareto_le(#[trigger] r@[j1],
            #[trigger] r@[j2]),
{
    let mut out: Vec<(i64, usize)> = Vec::new();
    let mut i: usize = 0;
    proof {
        broadcast use vstd::seq_lib::group_to_multiset_ensures;

        assert(groups@.subrange(0, 0) =~= Seq::<(i64, usize)>::empty());
        assert(out@.to_multiset() =~= groups@.subrange(0, 0).to_multiset());
    }
    while i < groups.len()
        invariant
            0 <= i <= groups@.len(),
            out@.to_multiset() == groups@.subrange(0, i as int).to_multiset(),
            forall|j1: int, j2: int| 0 <= j1 < j2 < out@.len() ==> pareto_le(
                #[trigger] out@[j1], #[trigger] out@[j2]),
        decreases groups@.len() - i,
    {
        let x = groups[i];
        let mut idx: usize = 0;
        while idx < out.len() && le_pareto_exec(&out[idx], &x)
            invariant
                0 <= idx <= out@.len(),
                forall|j: int| 0 <= j < idx as int ==> pareto_le(#[trigger] out@[j], x),
            decreases out@.len() - idx,
        {
            idx = idx + 1;
        }
        let ghost pre = out@;
        out.insert(idx, x);
        i = i + 1;
        proof {
            broadcast use vstd::seq_lib::group_to_multiset_ensures;

            crate::stats::lemma_multiset_insert_at(pre, idx as int, x);
            assert(groups@.subrange(0, i as int) =~= groups@.subrange(0, i - 1).push(x));
            assert forall|j1: int, j2: int| 0 <= j1 < j2 < out@.len() implies pareto_le(
                #[trigger] out@[j1], #[trigger] out@[j2]) by {
                assert(out@ == pre.insert(idx as int, x));
                if j1 < idx as int && j2 > idx as int {
                    assert(out@[j1] == pre[j1] && out@[j2] == pre[j2 - 1]);
                } else if j2 == idx as int {
                    assert(out@[j2] == x && out@[j1] == pre[j1]);
                } else if j1 == idx as int {
                    assert(out@[j1] == x && out@[j2] == pre[j2 - 1]);
                    if idx < pre.len() {
                        assert(!pareto_le(pre[idx as int], x));
                    }
                } else if j2 < idx as int {
                    assert(out@[j1] == pre[j1] && out@[j2] == pre[j2]);
                } else {
                    assert(out@[j1] == pre[j1 - 1] && out@[j2] == pre[j2 - 1]);
                }
            }
        }
    }
    proof {
        assert(groups@.subrange(0, groups@.len() as int) =~= groups@);
    }
    out
}

/// Whether frequency entry `a` may stay before `b` in the Pareto order.
fn le_pareto_exec(a: &(i64, usize), b: &(i64, usize)) -> (r: bool)
    ensures
        r == pareto_le(*a, *b),
{
    a.1 > b.1 || (a.1 == b.1 && a.0 <= b.0)
}

/// Largest coordinate magnitude the regression accepts (tighter than the
/// general value bound, so the normal-equation sums fit the machine's
/// widest integers).
pub const REG_BOUND: i64 = 0x1_0000_0000;

/// Sum of x coordinates.
pub open spec fn sum_rx(p: Seq<crate::downsample::Point>) -> int
    decreases p.len(),
{
    if p.len() == 0 {
        0
    } else {
        sum_rx(p.drop_last()) + p.last().x
    }
}

/// Sum of y coordinates.
pub open spec fn sum_ry(p: Seq<crate::downsample::Point>) -> int
    decreases p.len(),
{
    if p.len() == 0 {
        0
    } else {
        sum_ry(p.drop_last()) + p.last().y
    }
}

/// Sum of products of the coordinates.
pub open spec fn sum_rxy(p: Seq<crate::downsample::Point>) -> int
    decreases p.len(),
{
    if p.len() == 0 {
        0
    } else {
        sum_rxy(p.drop_last()) + p.last().x * p.last().y
    }
}

/// Sum of squared x coordinates.
pub open spec fn sum_rxx(p: Seq<crate::downsample::Point>) -> int
    decreases p.len(),
{
    if p.len() == 0 {
        0
    } else {
        sum_rxx(p.drop_last()) + p.last().x * p.last().x
    }
}

/// Residual cap: a residual magnitude is clamped here before squaring, so
/// squared-residual sums stay in range even for a wild fit.
pub const RESID_CAP: i64 = 0x100_0000_0000;

/// Clamp into `[-RESID_CAP, RESID_CAP]`.
pub open spec fn clamp_resid(v: int) -> int {
    if v > RESID_CAP {
        RESID_CAP as int
    } else if v < -RESID_CAP {
        -RESID_CAP as int
    } else {
        v
    }
}

/// Sum of squared deviations of y from `c` (clamped).
pub open spec fn ss_around(p: Seq<crate::downsample::Point>, c: int) -> int
    decreases p.len(),
{
    if p.len() == 0 {
        0
    } else {
        ss_around(p.drop_last(), c) + clamp_resid(p.last().y - c) * clamp_resid(
            p.last().y - c)
    }
}

/// Sum of squared residuals against the fitted line (clamped).
pub open spec fn ss_resid(p: Seq<crate::downsample::Point>, slope: int, intercept: int)
    -> int
    decreases p.len(),
{
    if p.len() == 0 {
        0
    } else {
        let pred = slope * p.last().x / (crate::SCALE as int) + intercept;
        ss_resid(p.drop_last(), slope, intercept) + clamp_resid(p.last().y - pred)
            * clamp_resid(p.last().y - pred)
    }
}

/// The closed-form least-squares line over fixed-point points:
/// `(slope, intercept, r_squared)`, all fixed point and clamped into
/// range. `None` for fewer than two points or a degenerate x spread
/// (all x equal). A zero total spread of y gives a perfect `r_squared`.
pub open spec fn linreg_spec(p: Seq<crate::downsample::Point>) -> Option<(i64, i64, i64)> {
    if p.len() < 2 {
        None
    } else {
        let n = p.len() as int;
        let sx = sum_rx(p);
        let sy = sum_ry(p);
        let sxy = sum_rxy(p);
        let sxx = sum_rxx(p);
        let dn = n * sxx - sx * sx;
        if dn <= 0 {
            None
        } else {
            let slope = crate::stats::sat64((n * sxy - sx * sy) * (crate::SCALE as int)
                / dn);
            let intercept = crate::stats::sat64((sy - slope * sx / (crate::SCALE as int))
                / n);
            let ybar = sy / n;
            let tot = ss_around(p, ybar);
            let res = ss_resid(p, slope, intercept);
            let r2 = if tot == 0 {
                crate::SCALE as int
            } else {
                crate::stats::sat64((crate::SCALE as int) - res * (crate::SCALE as int)
                    / tot)
            };
            Some((slope as i64, intercept as i64, r2 as i64))
        }
    }
}

/// Closed-form least-squares line fit; see [`linreg_spec`].
#[verifier::rlimit(100)]
pub fn linear_regression(points: &Vec<crate::downsample::Point>) -> (r: Option<(i64, i64,
    i64)>)
    requires
        points@.len() <= MAX_LEN,
        forall|i: int| 0 <= i < points@.len() ==> -REG_BOUND <= (#[trigger] points@[i]).x
            <= REG_BOUND && -REG_BOUND <= points@[i].y <= REG_BOUND,
    ensures
        r == linreg_spec(points@),
{
    if points.len() < 2 {
        return None;
    }
    let n = points.len();
    let mut sx: i128 = 0;
    let mut sy: i128 = 0;
    let mut sxy: i128 = 0;
    let mut sxx: i128 = 0;
    let mut i: usize = 0;
    proof {
        assert(points@.subrange(0, 0) =~= Seq::<crate::downsample::Point>::empty());
    }
    while i < n
        invariant
            0 <= i <= n,
            n == points@.len(),
            n <= MAX_LEN,
            forall|k: int| 0 <= k < points@.len() ==> -REG_BOUND
                <= (#[trigger] points@[k]).x <= REG_BOUND && -REG_BOUND <= points@[k].y
                <= REG_BOUND,
            sx as int == sum_rx(points@.subrange(0, i as int)),
            sy as int == sum_ry(points@.subrange(0, i as int)),
            sxy as int == sum_rxy(points@.subrange(0, i as int)),
            sxx as int == sum_rxx(points@.subrange(0, i as int)),
            -((i as int) * 0x1_0000_0000) <= sx as int <= (i as int) * 0x1_0000_0000,
            -((i as int) * 0x1_0000_0000) <= sy as int <= (i as int) * 0x1_0000_0000,
            -((i as int) * 0x1_0000_0000_0000_0000) <= sxy as int <= (i as int)
                * 0x1_0000_0000_0000_0000,
            0 <= sxx as int <= (i as int) * 0x1_0000_0000_0000_0000,
        decreases n - i,
    {
        let p = points[i];
        proof {
            assert(-0x1_0000_0000_0000_0000int <= (p.x as int) * (p.y as int)
                <= 0x1_0000_0000_0000_0000int && 0 <= (p.x as int) * (p.x as int)
                <= 0x1_0000_0000_0000_0000int) by (nonlinear_arith)
                requires
                    -0x1_0000_0000int <= p.x as int <= 0x1_0000_0000int,
                    -0x1_0000_0000int <= p.y as int <= 0x1_0000_0000int;
        }
        sx = sx + p.x as i128;
        sy = sy + p.y as i128;
        sxy = sxy + (p.x as i128) * (p.y as i128);
        sxx = sxx + (p.x as i128) * (p.x as i128);
        i = i + 1;
        proof {
            assert(points@.subrange(0, i as int).drop_last()
                =~= points@.subrange(0, i - 1));
        }
    }
    proof {
        assert(points@.subrange(0, n as int) =~= points@);
        assert(-0x100000000000000000000000000int <= (n as int) * (sxy as int)
            <= 0x100000000000000000000000000int && -0x100000000000000000000000000int
            <= (sx as int) * (sy as int) <= 0x100000000000000000000000000int
            && -0x100000000000000000000000000int <= (n as int) * (sxx as int)
            <= 0x100000000000000000000000000int && -0x100000000000000000000000000int
            <= (sx as int) * (sx as int) <= 0x100000000000000000000000000int)
            by (nonlinear_arith)
            requires
                1 <= n as int <= 0x10_0000int,
                -((n as int) * 0x1_0000_0000) <= sx as int <= (n as int) * 0x1_0000_0000,
                -((n as int) * 0x1_0000_0000) <= sy as int <= (n as int) * 0x1_0000_0000,
                -((n as int) * 0x1_0000_0000_0000_0000) <= sxy as int <= (n as int)
                    * 0x1_0000_0000_0000_0000,
                0 <= sxx as int <= (n as int) * 0x1_0000_0000_0000_0000;
    }
    let num: i128 = (n as i128) * sxy - sx * sy;
    let dn: i128 = (n as i128) * sxx - sx * sx;
    if dn <= 0 {
        return None;
    }
    proof {
        assert(-0x20000000000000000000000000000000int <= (num as int) * (
        crate::SCALE as int) <= 0x20000000000000000000000000000000int)
            by (nonlinear_arith)
            requires
                -0x200000000000000000000000000int <= num as int
                    <= 0x200000000000000000000000000int,
                0 < crate::SCALE as int <= 0x10_0000int;
    }
    let slope_w = crate::div_floor_i128(num * (crate::SCALE as i128), dn);
    let slope: i64 = if slope_w > i64::MAX as i128 {
        i64::MAX
    } else if slope_w < i64::MIN as i128 {
        i64::MIN
    } else {
        slope_w as i64
    };
    proof {
        assert(-0x80000000000000000000000000000int <= (slope as int) * (sx as int)
            <= 0x80000000000000000000000000000int) by (nonlinear_arith)
            requires
                -0x8000_0000_0000_0000int <= slope as int <= 0x8000_0000_0000_0000int,
                -0x10_0000_0000_0000int <= sx as int <= 0x10_0000_0000_0000int;
    }
    let adj = crate::div_floor_i128((slope as i128) * sx, crate::SCALE as i128);
    let icept_w = crate::div_floor_i128(sy - adj, n as i128);
    let intercept: i64 = if icept_w > i64::MAX as i128 {
        i64::MAX
    } else if icept_w < i64::MIN as i128 {
        i64::MIN
    } else {
        icept_w as i64
    };
    let ybar_w = crate::div_floor_i128(sy, n as i128);
    proof {
        lemma_div_is_ordered(sy as int, (n as int) * 0x1_0000_0000, n as int);
        lemma_div_is_ordered(-((n as int) * 0x1_0000_0000), sy as int, n as int);
        lemma_div_multiples_vanish(0x1_0000_0000, n as int);
        lemma_div_multiples_vanish(-0x1_0000_0000, n as int);
    }

    let mut tot: i128 = 0;
    let mut res: i128 = 0;
    let mut k: usize = 0;
    proof {
        assert(points@.subrange(0, 0) =~= Seq::<crate::downsample::Point>::empty());
    }
    while k < n
        invariant
            0 <= k <= n,
            n == points@.len(),
            n <= MAX_LEN,
            forall|j: int| 0 <= j < points@.len() ==> -REG_BOUND
                <= (#[trigger] points@[j]).x <= REG_BOUND && -REG_BOUND <= points@[j].y
                <= REG_BOUND,
            -0x1_0000_0000 <= ybar_w as int <= 0x1_0000_0000,
            tot as int == ss_around(points@.subrange(0, k as int), ybar_w as int),
            res as int == ss_resid(points@.subrange(0, k as int), slope as int,
                intercept as int),
            0 <= tot as int <= (k as int) * 0x1_0000_0000_0000_0000_0000,
            0 <= res as int <= (k as int) * 0x1_0000_0000_0000_0000_0000,
        decreases n - k,
    {
        let p = points[k];
        let dtot_w: i128 = (p.y as i128) - ybar_w;
        let dtot: i128 = if dtot_w > RESID_CAP as i128 {
            RESID_CAP as i128
        } else if dtot_w < -(RESID_CAP as i128) {
            -(RESID_CAP as i128)
        } else {
            dtot_w
        };
        proof {
            assert(-0x80000000000000000000000000000int <= (slope as int) * (p.x as int)
                <= 0x80000000000000000000000000000int) by (nonlinear_arith)
                requires
                    -0x8000_0000_0000_0000int <= slope as int <= 0x8000_0000_0000_0000int,
                    -0x1_0000_0000int <= p.x as int <= 0x1_0000_0000int;
        }
        let pred = crate::div_floor_i128((slope as i128) * (p.x as i128),
            crate::SCALE as i128) + intercept as i128;
        let dres_w: i128 = (p.y as i128) - pred;
        let dres: i128 = if dres_w > RESID_CAP as i128 {
            RESID_CAP as i128
        } else if dres_w < -(RESID_CAP as i128) {
            -(RESID_CAP as i128)
        } else {
            dres_w
        };
        proof {
            assert(0 <= (dtot as int) * (dtot as int) <= 0x1_0000_0000_0000_0000_0000int
                && 0 <= (dres as int) * (dres as int)
                <= 0x1_0000_0000_0000_0000_0000int) by (nonlinear_arith)
                requires
                    -0x100_0000_0000int <= dtot as int <= 0x100_0000_0000int,
                    -0x100_0000_0000int <= dres as int <= 0x100_0000_0000int;
        }
        tot = tot + dtot * dtot;
        res = res + dres * dres;
        k = k + 1;
        proof {
            assert(points@.subrange(0, k as int).drop_last()
                =~= points@.subrange(0, k - 1));
        }
    }
    proof {
        assert(points@.subrange(0, n as int) =~= points@);
    }
    let r2: i64 = if tot == 0 {
        crate::SCALE
    } else {
        proof {
            assert(0 <= (res as int) * (crate::SCALE as int)
                <= 0x1000_0000_0000_0000_0000_0000_0000_0000int) by (nonlinear_arith)
                requires
                    0 <= res as int <= 0x10_0000_0000_0000_0000_0000_0000int,
                    0 < crate::SCALE as int <= 0x10_0000int;
        }
        let q = crate::div_floor_i128(res * (crate::SCALE as i128), tot);
        let w: i128 = (crate::SCALE as i128) - q;
        if w > i64::MAX as i128 {
            i64::MAX
        } else if w < i64::MIN as i128 {
            i64::MIN
        } else {
            w as i64
        }
    };
    Some((slope, intercept, r2))
}

/// A p chart: per-sample defect proportions with control limits.
#[derive(Clone, Debug)]
pub struct PChart {
    /// `(sample index, proportion)` points.
    pub proportions: Vec<(i64, i64)>,
    /// Average proportion.
    pub p_bar: i64,
    /// Upper control limit.
    pub ucl: i64,
    /// Lower control limit (floored at zero).
    pub lcl: i64,
}

/// p chart for attribute data: each entry of `defects` is a defect count
/// for one sample of `sample_size` units (fixed point). The limits are
/// three estimated standard deviations around the average proportion; the
/// lower limit is floored at zero, and a degenerate variance (an average
/// proportion outside `[0, 1]`) contributes no spread.
pub fn calculate_pchart(defects: &Vec<i64>, sample_size: usize) -> (r: PChart)
    requires
        defects@.len() <= MAX_LEN,
        values_bounded(defects@),
        sample_size <= MAX_LEN,
    ensures
        (defects@.len() == 0 || sample_size == 0) ==> r.proportions@.len() == 0 && r.p_bar
            == 0 && r.ucl == 0 && r.lcl == 0,
        (defects@.len() > 0 && sample_size > 0) ==> {
            let n = sample_size as int;
            let pb = sum_seq(defects@) / (defects@.len() * n);
            let spread = if 0 <= pb <= crate::SCALE as int {
                sqrt_floor(pb * ((crate::SCALE as int) - pb) / n)
            } else {
                0
            };
            &&& r.proportions@.len() == defects@.len()
            &&& (forall|k: int| 0 <= k < defects@.len()
                ==> (#[trigger] r.proportions@[k]).0 == k && r.proportions@[k].1 as int
                    == defects@[k] as int / n)
            &&& r.p_bar as int == pb
            &&& r.ucl as int == pb + 3 * spread
            &&& r.lcl as int == (if pb - 3 * spread >= 0 {
                pb - 3 * spread
            } else {
                0int
            })
        },
{
    let empty = PChart { proportions: Vec::new(), p_bar: 0, ucl: 0, lcl: 0 };
    if defects.len() == 0 || sample_size == 0 {
        return empty;
    }
    let n = sample_size;
    let mut proportions: Vec<(i64, i64)> = Vec::new();
    let mut i: usize = 0;
    while i < defects.len()
        invariant
            0 <= i <= defects@.len(),
            defects@.len() <= MAX_LEN,
            values_bounded(defects@),
            1 <= n <= MAX_LEN,
            proportions@.len() == i,
            forall|k: int| 0 <= k < i as int ==> (#[trigger] proportions@[k]).0 == k
                && proportions@[k].1 as int == defects@[k] as int / n as int,
        decreases defects@.len() - i,
    {
        let p = crate::div_floor(defects[i], n as i64);
        proportions.push((i as i64, p));
        i = i + 1;
    }
    let total = crate::stats::sum_values(defects);
    proof {
        assert(1 <= (defects@.len() as int) * (n as int)
            <= 0x100_0000_0000int) by (nonlinear_arith)
            requires 1 <= defects@.len() <= MAX_LEN as int, 1 <= n as int <= MAX_LEN as int,
                MAX_LEN == 0x10_0000usize;
    }
    let denom: i128 = (defects.len() as i128) * (n as i128);
    proof {
        assert(-(denom as int * (VAL_BOUND as int))
            <= total as int <= denom as int * (VAL_BOUND as int)) by (nonlinear_arith)
            requires
                1 <= defects@.len() as int,
                1 <= n as int,
                denom as int == (defects@.len() as int) * (n as int),
                -((defects@.len() as int) * (VAL_BOUND as int)) <= total as int
                    <= (defects@.len() as int) * (VAL_BOUND as int),
                0 < VAL_BOUND as int;
        lemma_div_is_ordered(total as int, denom as int * (VAL_BOUND as int), denom as int);
        lemma_div_is_ordered(-(denom as int * (VAL_BOUND as int)), total as int,
            denom as int);
        lemma_div_multiples_vanish(VAL_BOUND as int, denom as int);
        lemma_div_multiples_vanish(-(VAL_BOUND as int), denom as int);
    }
    let pb_w = crate::div_floor_i128(total, denom);
    let pb: i64 = pb_w as i64;
    let spread: i64 = if 0 <= pb && pb <= crate::SCALE {
        proof {
            assert(0 <= (pb as int) * ((crate::SCALE as int) - pb as int)
                <= 0x100_0000_0000int) by (nonlinear_arith)
                requires 0 <= pb as int <= crate::SCALE as int,
                    crate::SCALE == 1048576i64;
        }
        let q: i128 = (pb as i128) * ((crate::SCALE as i128) - (pb as i128));
        let v = q / (n as i128);
        proof {
            lemma_div_pos_is_pos(q as int, n as int);
            lemma_div_is_ordered(q as int, 0x100_0000_0000int, n as int);
            vstd::arithmetic::div_mod::lemma_div_is_ordered_by_denominator(
                0x100_0000_0000int, 1, n as int);
        }
        let sp = crate::stats::isqrt_i128(v);
        proof {
            crate::stats::lemma_sqrt_floor_correct(v as int);
            assert(sqrt_floor(v as int) <= 0x10_0000int) by (nonlinear_arith)
                requires
                    0 <= sqrt_floor(v as int),
                    sqrt_floor(v as int) * sqrt_floor(v as int) <= v as int,
                    v as int <= 0x100_0000_0000int;
        }
        sp
    } else {
        0
    };
    let ucl: i64 = pb + 3 * spread;
    let lcl: i64 = if pb - 3 * spread >= 0 {
        pb - 3 * spread
    } else {
        0
    };
    PChart { proportions, p_bar: pb, ucl, lcl }
}

} // verus!
