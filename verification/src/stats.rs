//! Descriptive statistics over fixed-point values.
//!
//! Every function is total: empty input and degenerate spreads produce the
//! documented sentinel values instead of errors, so an overlay stays
//! renderable on any column. Values are fixed point (see [`crate::SCALE`]);
//! quotients round toward negative infinity.

use vstd::prelude::*;
use vstd::arithmetic::div_mod::{
    lemma_div_is_ordered, lemma_div_multiples_vanish, lemma_div_pos_is_pos,
};
use vstd::seq_lib::lemma_multiset_commutative;

verus! {

/// Largest value magnitude the statistics accept.
pub const VAL_BOUND: i64 = 0x8_0000_0000_0000;

/// Largest number of values the statistics accept.
pub const MAX_LEN: usize = 1048576;

/// All values of `s` are within [`VAL_BOUND`].
pub open spec fn values_bounded(s: Seq<i64>) -> bool {
    forall|i: int| 0 <= i < s.len() ==> -VAL_BOUND <= #[trigger] s[i] <= VAL_BOUND
}

/// Sum of the values of `s`.
pub open spec fn sum_seq(s: Seq<i64>) -> int
    decreases s.len(),
{
    if s.len() == 0 {
        0
    } else {
        sum_seq(s.drop_last()) + s.last()
    }
}

/// Population mean, rounded toward negative infinity; 0 for empty input.
pub open spec fn mean_spec(s: Seq<i64>) -> int {
    if s.len() == 0 {
        0
    } else {
        sum_seq(s) / s.len() as int
    }
}

/// Sum of squared deviations from `m`.
pub open spec fn sq_dev_sum(s: Seq<i64>, m: int) -> int
    decreases s.len(),
{
    if s.len() == 0 {
        0
    } else {
        sq_dev_sum(s.drop_last(), m) + (s.last() - m) * (s.last() - m)
    }
}

/// Population variance (divide by N), over the rounded mean; 0 for empty
/// input.
pub open spec fn var_spec(s: Seq<i64>) -> int {
    if s.len() == 0 {
        0
    } else {
        sq_dev_sum(s, mean_spec(s)) / s.len() as int
    }
}

/// `r` is the integer square root (floor) of `x`.
pub open spec fn is_sqrt_floor(x: int, r: int) -> bool {
    0 <= r && r * r <= x && x < (r + 1) * (r + 1)
}

/// Integer square root, rounded down (digit-by-digit recursion).
pub open spec fn sqrt_floor(x: int) -> int
    decreases x,
{
    if x < 1 {
        0
    } else {
        let h = 2 * sqrt_floor(x / 4);
        if (h + 1) * (h + 1) <= x {
            h + 1
        } else {
            h
        }
    }
}

/// Population standard deviation: the integer square root of the variance.
pub open spec fn stddev_spec(s: Seq<i64>) -> int {
    sqrt_floor(var_spec(s))
}

/// The recursive [`sqrt_floor`] satisfies the square-root bracketing.
pub proof fn lemma_sqrt_floor_correct(x: int)
    requires
        0 <= x,
    ensures
        is_sqrt_floor(x, sqrt_floor(x)),
    decreases x,
{
    if x >= 1 {
        lemma_sqrt_floor_correct(x / 4);
        let s = sqrt_floor(x / 4);
        let h = 2 * s;
        assert(h * h <= x && x < (h + 2) * (h + 2)) by (nonlinear_arith)
            requires
                0 <= s,
                s * s <= x / 4,
                x / 4 < (s + 1) * (s + 1),
                h == 2 * s,
                x / 4 * 4 <= x < (x / 4 + 1) * 4,
        ;
        assert(x / 4 * 4 <= x < (x / 4 + 1) * 4) by {
            vstd::arithmetic::div_mod::lemma_fundamental_div_mod(x, 4);
        }
    }
}

/// The bracketing pins the square root: it is [`sqrt_floor`].
proof fn lemma_sqrt_unique(x: int, r: int)
    requires
        is_sqrt_floor(x, r),
    ensures
        r == sqrt_floor(x),
{
    lemma_sqrt_floor_correct(x);
    let q = sqrt_floor(x);
    assert(r == q) by (nonlinear_arith)
        requires
            0 <= r && r * r <= x && x < (r + 1) * (r + 1),
            0 <= q && q * q <= x && x < (q + 1) * (q + 1),
    ;
}

/// Integer square root of a (bounded) non-negative wide value.
pub fn isqrt_i128(x: i128) -> (r: i64)
    requires
        0 <= x < 0x4000_0000_0000_0000_0000_0000_0000_0000,
    ensures
        r as int == sqrt_floor(x as int),
        0 <= r,
{
    let mut lo: i128 = 0;
    let mut hi: i128 = 0x8000_0000_0000_0000;
    proof {
        assert((0x8000_0000_0000_0000 as int) * (0x8000_0000_0000_0000 as int)
            == 0x4000_0000_0000_0000_0000_0000_0000_0000int);
        vstd::arithmetic::mul::lemma_mul_basics(lo as int);
    }
    while lo + 1 < hi
        invariant
            0 <= lo < hi <= 0x8000_0000_0000_0000,
            (lo as int) * (lo as int) <= x as int,
            (x as int) < (hi as int) * (hi as int),
        decreases hi - lo,
    {
        let mid: i128 = lo + (hi - lo) / 2;
        proof {
            assert(0 <= (mid as int) * (mid as int)
                <= 0x4000_0000_0000_0000_0000_0000_0000_0000int) by (nonlinear_arith)
                requires 0 <= mid as int <= 0x8000_0000_0000_0000int;
        }
        if mid * mid <= x {
            lo = mid;
        } else {
            hi = mid;
        }
    }
    proof {
        lemma_sqrt_unique(x as int, lo as int);
    }
    lo as i64
}

/// The ordering the sort uses.
pub open spec fn value_leq() -> spec_fn(i64, i64) -> bool {
    |a: i64, b: i64| a <= b
}

/// `s` is in ascending order.
pub open spec fn is_ascending(s: Seq<i64>) -> bool {
    forall|i: int, j: int| 0 <= i <= j < s.len() ==> s[i] <= s[j]
}

/// Inserting at any position adds the element to the multiset.
pub(crate) proof fn lemma_multiset_insert_at<A>(s: Seq<A>, i: int, a: A)
    requires
        0 <= i <= s.len(),
    ensures
        s.insert(i, a).to_multiset() == s.to_multiset().insert(a),
{
    broadcast use vstd::seq_lib::group_to_multiset_ensures;
    broadcast use vstd::multiset::group_multiset_axioms;

    let l = s.subrange(0, i);
    let r = s.subrange(i, s.len() as int);
    assert(s =~= l + r);
    lemma_multiset_commutative(l, r);
    lemma_multiset_commutative(l.push(a), r);
    assert(l.push(a).to_multiset() == l.to_multiset().insert(a));
    assert(s.insert(i, a).to_multiset() =~= s.to_multiset().insert(a));
}

/// An ascending sequence is pinned by its multiset.
proof fn lemma_ascending_unique(s1: Seq<i64>, s2: Seq<i64>)
    requires
        is_ascending(s1),
        is_ascending(s2),
        s1.to_multiset() == s2.to_multiset(),
    ensures
        s1 == s2,
    decreases s1.len(),
{
    broadcast use vstd::seq_lib::group_to_multiset_ensures;
    broadcast use vstd::multiset::group_multiset_axioms;

    if s1.len() == 0 {
        assert(s1 =~= s2);
    } else {
        assert(s1.to_multiset().len() == s1.len());
        assert(s2.to_multiset().len() == s2.len());
        assert(s2.len() == s1.len());
        assert(s1.contains(s1[0]));
        assert(s2.to_multiset().count(s1[0]) > 0);
        assert(s2.contains(s1[0]));
        let j2 = choose|j: int| 0 <= j < s2.len() && s2[j] == s1[0];
        assert(s2[0] <= s2[j2]);
        assert(s2.contains(s2[0]));
        assert(s1.to_multiset().count(s2[0]) > 0);
        assert(s1.contains(s2[0]));
        let j1 = choose|j: int| 0 <= j < s1.len() && s1[j] == s2[0];
        assert(s1[0] <= s1[j1]);
        assert(s1[0] == s2[0]);
        let r1 = s1.remove(0);
        let r2 = s2.remove(0);
        assert(r1.to_multiset() =~= s1.to_multiset().remove(s1[0]));
        assert(r2.to_multiset() =~= s2.to_multiset().remove(s2[0]));
        assert(r1.to_multiset() == r2.to_multiset());
        lemma_ascending_unique(r1, r2);
        assert forall|k: int| 0 <= k < s1.len() implies s1[k] == s2[k] by {
            if k > 0 {
                assert(r1[k - 1] == s1[k]);
                assert(r2[k - 1] == s2[k]);
            }
        }
        assert(s1 =~= s2);
    }
}

/// Ascending copy of the input (insertion sort): the unique ascending
/// rearrangement.
pub fn sort_values(values: &Vec<i64>) -> (r: Vec<i64>)
    ensures
        r@ == values@.sort_by(value_leq()),
        r@.to_multiset() == values@.to_multiset(),
        r@.len() == values@.len(),
        is_ascending(r@),
{
    let ghost leq = value_leq();
    let mut out: Vec<i64> = Vec::new();
    let mut i: usize = 0;
    proof {
        broadcast use vstd::seq_lib::group_to_multiset_ensures;

        assert(values@.subrange(0, 0) =~= Seq::<i64>::empty());
        assert(out@.to_multiset() =~= values@.subrange(0, 0).to_multiset());
    }
    while i < values.len()
        invariant
            0 <= i <= values@.len(),
            out@.len() == i,
            is_ascending(out@),
            out@.to_multiset() == values@.subrange(0, i as int).to_multiset(),
        decreases values@.len() - i,
    {
        let x = values[i];
        let mut idx: usize = 0;
        while idx < out.len() && out[idx] <= x
            invariant
                0 <= idx <= out@.len(),
                forall|k: int| 0 <= k < idx as int ==> out@[k] <= x,
                is_ascending(out@),
            decreases out@.len() - idx,
        {
            idx = idx + 1;
        }
        let ghost pre = out@;
        out.insert(idx, x);
        i = i + 1;
        proof {
            broadcast use vstd::seq_lib::group_to_multiset_ensures;

            lemma_multiset_insert_at(pre, idx as int, x);
            assert(values@.subrange(0, i as int)
                =~= values@.subrange(0, i - 1).push(x));
            assert(forall|k: int| idx as int <= k < pre.len() ==> x < #[trigger] pre[k]);
            assert forall|a: int, b: int| 0 <= a <= b < out@.len() implies
                out@[a] <= out@[b] by {
                assert(out@ == pre.insert(idx as int, x));
            }
        }
    }
    proof {
        assert(values@.subrange(0, values@.len() as int) =~= values@);
        values@.lemma_sort_by_ensures(leq);
        assert(vstd::relations::sorted_by(values@.sort_by(leq), leq));
        assert forall|a: int, b: int| 0 <= a <= b < values@.sort_by(leq).len() implies
            values@.sort_by(leq)[a] <= values@.sort_by(leq)[b] by {
            if a < b {
                assert(leq(values@.sort_by(leq)[a], values@.sort_by(leq)[b]));
            }
        }
        lemma_ascending_unique(out@, values@.sort_by(leq));
    }
    out
}

/// Clamp an unbounded quotient into the i64 range.
pub open spec fn sat64(x: int) -> int {
    if x > i64::MAX {
        i64::MAX as int
    } else if x < i64::MIN {
        i64::MIN as int
    } else {
        x
    }
}

/// Sum of the values, as a wide integer.
pub fn sum_values(values: &Vec<i64>) -> (r: i128)
    requires
        values@.len() <= MAX_LEN,
        values_bounded(values@),
    ensures
        r as int == sum_seq(values@),
        -(values@.len() * (VAL_BOUND as int)) <= r as int
            <= values@.len() * (VAL_BOUND as int),
{
    let mut acc: i128 = 0;
    let mut i: usize = 0;
    proof {
        assert(values@.subrange(0, 0) =~= Seq::<i64>::empty());
    }
    while i < values.len()
        invariant
            0 <= i <= values@.len(),
            values@.len() <= MAX_LEN,
            values_bounded(values@),
            acc as int == sum_seq(values@.subrange(0, i as int)),
            -((i as int) * (VAL_BOUND as int)) <= acc as int
                <= (i as int) * (VAL_BOUND as int),
        decreases values@.len() - i,
    {
        acc = acc + values[i] as i128;
        i = i + 1;
        proof {
            assert(values@.subrange(0, i as int).drop_last()
                =~= values@.subrange(0, i - 1));
        }
    }
    proof {
        assert(values@.subrange(0, values@.len() as int) =~= values@);
    }
    acc
}

/// Population mean and population standard deviation (divide by N, not
/// N−1), both fixed point; `(0, 0)` for empty input. The mean rounds toward
/// negative infinity; the standard deviation is the integer square root of
/// the variance.
pub fn calculate_statistics(values: &Vec<i64>) -> (r: (i64, i64))
    requires
        values@.len() <= MAX_LEN,
        values_bounded(values@),
    ensures
        r.0 as int == mean_spec(values@),
        r.1 as int == stddev_spec(values@),
        -(VAL_BOUND as int) <= r.0 as int <= VAL_BOUND as int,
        0 <= r.1,
{
    if values.len() == 0 {
        proof {
            assert(sqrt_floor(0) == 0);
        }
        return (0, 0);
    }
    let n: i128 = values.len() as i128;
    let sum = sum_values(values);
    let mean_w = crate::div_floor_i128(sum, n);
    proof {
        lemma_div_is_ordered(sum as int, values@.len() * (VAL_BOUND as int), values@.len() as int);
        lemma_div_is_ordered(-(values@.len() * (VAL_BOUND as int)), sum as int,
            values@.len() as int);
        lemma_div_multiples_vanish(VAL_BOUND as int, values@.len() as int);
        lemma_div_multiples_vanish(-(VAL_BOUND as int), values@.len() as int);
    }
    let mean: i64 = mean_w as i64;

    let mut acc: i128 = 0;
    let mut i: usize = 0;
    proof {
        assert(values@.subrange(0, 0) =~= Seq::<i64>::empty());
    }
    while i < values.len()
        invariant
            0 <= i <= values@.len(),
            values@.len() <= MAX_LEN,
            values_bounded(values@),
            -(VAL_BOUND as int) <= mean as int <= VAL_BOUND as int,
            acc as int == sq_dev_sum(values@.subrange(0, i as int), mean as int),
            0 <= acc as int <= (i as int) * 0x100_0000_0000_0000_0000_0000_0000,
        decreases values@.len() - i,
    {
        let d: i128 = (values[i] as i128) - (mean as i128);
        proof {
            assert(0 <= (d as int) * (d as int)
                <= 0x100_0000_0000_0000_0000_0000_0000int) by (nonlinear_arith)
                requires -0x10_0000_0000_0000int <= d as int <= 0x10_0000_0000_0000int;
        }
        acc = acc + d * d;
        i = i + 1;
        proof {
            assert(values@.subrange(0, i as int).drop_last()
                =~= values@.subrange(0, i - 1));
        }
    }
    proof {
        assert(values@.subrange(0, values@.len() as int) =~= values@);
    }
    let variance = crate::div_floor_i128(acc, n);
    proof {
        lemma_div_pos_is_pos(acc as int, values@.len() as int);
        lemma_div_is_ordered(acc as int,
            values@.len() as int * 0x100_0000_0000_0000_0000_0000_0000,
            values@.len() as int);
        lemma_div_multiples_vanish(0x100_0000_0000_0000_0000_0000_0000, values@.len() as int);
    }
    let sd = isqrt_i128(variance);
    (mean, sd)
}

/// Median, fixed point: the middle of the ascending rearrangement; the mean
/// of the two middles (rounded toward negative infinity) for even length;
/// 0 for empty input.
pub open spec fn median_spec(s: Seq<i64>) -> int {
    if s.len() == 0 {
        0
    } else {
        let sorted = s.sort_by(value_leq());
        if s.len() % 2 == 0 {
            (sorted[s.len() as int / 2 - 1] + sorted[s.len() as int / 2]) / 2
        } else {
            sorted[s.len() as int / 2] as int
        }
    }
}

/// Median of the values; see [`median_spec`].
pub fn calculate_median(values: &Vec<i64>) -> (r: i64)
    requires
        values@.len() <= MAX_LEN,
        values_bounded(values@),
    ensures
        r as int == median_spec(values@),
{
    if values.len() == 0 {
        return 0;
    }
    let sorted = sort_values(values);
    proof {
        broadcast use vstd::seq_lib::group_to_multiset_ensures;

        assert forall|k: int| 0 <= k < sorted@.len() implies
            -VAL_BOUND <= #[trigger] sorted@[k] <= VAL_BOUND by {
            assert(sorted@.contains(sorted@[k]));
            assert(sorted@.to_multiset().count(sorted@[k]) > 0);
            assert(values@.contains(sorted@[k]));
        }
    }
    let mid = values.len() / 2;
    if values.len() % 2 == 0 {
        crate::div_floor(sorted[mid - 1] + sorted[mid], 2)
    } else {
        sorted[mid]
    }
}

/// Index `i` of `s` is a z-score outlier at `threshold` (all fixed point):
/// the absolute deviation from the mean exceeds `threshold` standard
/// deviations.
pub open spec fn is_outlier_at(s: Seq<i64>, threshold: int, i: int) -> bool {
    vstd::math::abs(s[i] - mean_spec(s)) * (crate::SCALE as int) > threshold * stddev_spec(s)
}

/// Indices whose z-score magnitude exceeds `threshold` (fixed point), in
/// ascending order. A zero standard deviation leaves the z-score undefined,
/// so no outliers are reported.
pub fn detect_outliers(values: &Vec<i64>, threshold: i64) -> (r: Vec<usize>)
    requires
        values@.len() <= MAX_LEN,
        values_bounded(values@),
    ensures
        stddev_spec(values@) == 0 ==> r@.len() == 0,
        stddev_spec(values@) != 0 ==> {
            &&& forall|k: int| 0 <= k < r@.len() ==> r@[k] < values@.len()
                && is_outlier_at(values@, threshold as int, #[trigger] r@[k] as int)
            &&& forall|k1: int, k2: int| 0 <= k1 < k2 < r@.len() ==> r@[k1] < r@[k2]
            &&& forall|i: int| 0 <= i < values@.len()
                && is_outlier_at(values@, threshold as int, i)
                ==> r@.contains(i as usize)
        },
{
    let (mean, sd) = calculate_statistics(values);
    let mut out: Vec<usize> = Vec::new();
    if sd == 0 {
        return out;
    }
    let mut i: usize = 0;
    while i < values.len()
        invariant
            0 <= i <= values@.len(),
            values@.len() <= MAX_LEN,
            values_bounded(values@),
            mean as int == mean_spec(values@),
            sd as int == stddev_spec(values@),
            -(VAL_BOUND as int) <= mean as int <= VAL_BOUND as int,
            0 <= sd,
            forall|k: int| 0 <= k < out@.len() ==> out@[k] < i
                && is_outlier_at(values@, threshold as int, #[trigger] out@[k] as int),
            forall|k1: int, k2: int| 0 <= k1 < k2 < out@.len() ==> out@[k1] < out@[k2],
            forall|j: int| 0 <= j < i as int && is_outlier_at(values@, threshold as int, j)
                ==> out@.contains(j as usize),
        decreases values@.len() - i,
    {
        let d: i128 = (values[i] as i128) - (mean as i128);
        let ad: i128 = if d < 0 { -d } else { d };
        proof {
            assert((ad as int) * (crate::SCALE as int) <= 0x100_0000_0000_0000_0000int
                && -0x4000_0000_0000_0000_0000_0000_0000_0000int
                    <= (threshold as int) * (sd as int)
                    <= 0x4000_0000_0000_0000_0000_0000_0000_0000int) by (nonlinear_arith)
                requires
                    0 <= ad as int <= 0x10_0000_0000_0000int,
                    0 < crate::SCALE as int <= 0x10_0000int,
                    -0x8000_0000_0000_0000int <= threshold as int <= 0x8000_0000_0000_0000int,
                    0 <= sd as int <= 0x8000_0000_0000_0000int;
        }
        let ghost pre = out@;
        if ad * (crate::SCALE as i128) > (threshold as i128) * (sd as i128) {
            out.push(i);
        }
        i = i + 1;
        proof {
            assert forall|x: usize| pre.contains(x) implies out@.contains(x) by {
                let k = choose|k: int| 0 <= k < pre.len() && pre[k] == x;
                assert(out@[k] == x);
            }
            if ad * (crate::SCALE as int) > (threshold as int) * (sd as int) {
                assert(out@[pre.len() as int] == (i - 1) as usize);
                assert(out@.contains((i - 1) as usize));
            }
        }
    }
    out
}

/// Smallest value of `s` (0 for empty input).
pub open spec fn min_seq(s: Seq<i64>) -> int
    decreases s.len(),
{
    if s.len() == 0 {
        0
    } else if s.len() == 1 {
        s[0] as int
    } else {
        let m = min_seq(s.drop_last());
        if s.last() < m {
            s.last() as int
        } else {
            m
        }
    }
}

/// Largest value of `s` (0 for empty input).
pub open spec fn max_seq(s: Seq<i64>) -> int
    decreases s.len(),
{
    if s.len() == 0 {
        0
    } else if s.len() == 1 {
        s[0] as int
    } else {
        let m = max_seq(s.drop_last());
        if s.last() > m {
            s.last() as int
        } else {
            m
        }
    }
}

/// The extremes bound every element and are elements themselves.
pub proof fn lemma_min_max(s: Seq<i64>)
    requires
        s.len() > 0,
    ensures
        forall|i: int| 0 <= i < s.len() ==> min_seq(s) <= #[trigger] s[i] <= max_seq(s),
        exists|i: int| 0 <= i < s.len() && s[i] == min_seq(s),
        exists|i: int| 0 <= i < s.len() && s[i] == max_seq(s),
    decreases s.len(),
{
    if s.len() == 1 {
        assert(s[0] as int == min_seq(s));
        assert(s[0] as int == max_seq(s));
    } else {
        lemma_min_max(s.drop_last());
        assert forall|i: int| 0 <= i < s.len() implies
            min_seq(s) <= #[trigger] s[i] <= max_seq(s) by {
            if i < s.len() - 1 {
                assert(s.drop_last()[i] == s[i]);
            }
        }
        if min_seq(s) == s.last() as int {
            assert(s[s.len() - 1] as int == min_seq(s));
        } else {
            let i = choose|i: int| 0 <= i < s.drop_last().len()
                && s.drop_last()[i] as int == min_seq(s.drop_last());
            assert(s[i] as int == min_seq(s));
        }
        if max_seq(s) == s.last() as int {
            assert(s[s.len() - 1] as int == max_seq(s));
        } else {
            let i = choose|i: int| 0 <= i < s.drop_last().len()
                && s.drop_last()[i] as int == max_seq(s.drop_last());
            assert(s[i] as int == max_seq(s));
        }
    }
}

/// Equal-width bin index of `v` over `[min, min + range)` with `bins` bins;
/// the final bin also absorbs the maximum (the index is clamped).
pub open spec fn bin_index_spec(v: int, min: int, range: int, bins: int) -> int {
    let raw = (v - min) * bins / range;
    if raw >= bins {
        bins - 1
    } else {
        raw
    }
}

/// How many values of `s` fall in bin `k`.
pub open spec fn count_in_bin(s: Seq<i64>, min: int, range: int, bins: int, k: int) -> int
    decreases s.len(),
{
    if s.len() == 0 {
        0
    } else {
        count_in_bin(s.drop_last(), min, range, bins, k) + (
        if bin_index_spec(s.last() as int, min, range, bins) == k {
            1int
        } else {
            0int
        })
    }
}

/// Sum of the counts of bins `0..k`.
pub open spec fn count_total(s: Seq<i64>, min: int, range: int, bins: int, k: int) -> int
    decreases k,
{
    if k <= 0 {
        0
    } else {
        count_total(s, min, range, bins, k - 1) + count_in_bin(s, min, range, bins, k - 1)
    }
}

proof fn lemma_count_in_bin_le(s: Seq<i64>, min: int, range: int, bins: int, k: int)
    ensures
        0 <= count_in_bin(s, min, range, bins, k) <= s.len(),
    decreases s.len(),
{
    if s.len() > 0 {
        lemma_count_in_bin_le(s.drop_last(), min, range, bins, k);
    }
}

proof fn lemma_count_total_of_empty(s: Seq<i64>, min: int, range: int, bins: int, k: int)
    requires
        s.len() == 0,
    ensures
        count_total(s, min, range, bins, k) == 0,
    decreases k,
{
    if k > 0 {
        lemma_count_total_of_empty(s, min, range, bins, k - 1);
    }
}

proof fn lemma_count_total_drop(s: Seq<i64>, min: int, range: int, bins: int, k: int)
    requires
        s.len() > 0,
    ensures
        count_total(s, min, range, bins, k) == count_total(s.drop_last(), min, range, bins, k)
            + if 0 <= bin_index_spec(s.last() as int, min, range, bins) < k {
                1int
            } else {
                0int
            },
    decreases k,
{
    if k > 0 {
        lemma_count_total_drop(s, min, range, bins, k - 1);
    }
}

/// Bin-count conservation: when every value lies at or above `min` and the
/// range is positive, every value lands in exactly one of the `bins` bins
/// (the largest values clamped into the last), so the counts add up to the
/// input length.
pub proof fn lemma_histogram_conservation(s: Seq<i64>, min: int, range: int, bins: int)
    requires
        bins >= 1,
        range >= 1,
        forall|i: int| 0 <= i < s.len() ==> min <= #[trigger] s[i],
    ensures
        count_total(s, min, range, bins, bins) == s.len(),
    decreases s.len(),
{
    if s.len() == 0 {
        lemma_count_total_of_empty(s, min, range, bins, bins);
    } else {
        assert(min <= s[s.len() - 1]);
        assert forall|i: int| 0 <= i < s.drop_last().len() implies
            min <= #[trigger] s.drop_last()[i] by {
            assert(s.drop_last()[i] == s[i]);
        }
        lemma_histogram_conservation(s.drop_last(), min, range, bins);
        lemma_count_total_drop(s, min, range, bins, bins);
        let v = s.last() as int;
        vstd::arithmetic::mul::lemma_mul_nonnegative(v - min, bins);
        lemma_div_pos_is_pos((v - min) * bins, range);
        assert(0 <= bin_index_spec(v, min, range, bins) < bins);
        assert(count_total(s, min, range, bins, bins)
            == count_total(s.drop_last(), min, range, bins, bins) + 1);
    }
}

/// Sum of the counts of the first `k` returned bin entries.
pub open spec fn hist_counts_sum(h: Seq<(i64, i64)>, k: int) -> int
    decreases k,
{
    if k <= 0 {
        0
    } else {
        hist_counts_sum(h, k - 1) + h[k - 1].1
    }
}

proof fn lemma_hist_sum_matches_bins(h: Seq<(i64, i64)>, s: Seq<i64>, min: int, range: int,
    bins: int, k: int)
    requires
        0 <= k <= bins <= h.len(),
        forall|j: int| 0 <= j < bins ==> (#[trigger] h[j]).1 == count_in_bin(s, min, range,
            bins, j),
    ensures
        hist_counts_sum(h, k) == count_total(s, min, range, bins, k),
    decreases k,
{
    if k > 0 {
        lemma_hist_sum_matches_bins(h, s, min, range, bins, k - 1);
    }
}

proof fn lemma_hist_sum_single(h: Seq<(i64, i64)>, bins: int, mid: int, total: int, k: int)
    requires
        0 <= k <= bins <= h.len(),
        0 <= mid < bins,
        forall|j: int| 0 <= j < bins ==> (#[trigger] h[j]).1 as int == (if j == mid {
            total
        } else {
            0int
        }),
    ensures
        hist_counts_sum(h, k) == (if k > mid {
            total
        } else {
            0int
        }),
    decreases k,
{
    if k > 0 {
        lemma_hist_sum_single(h, bins, mid, total, k - 1);
    }
}

/// Equal-width histogram: `(bin data, min, bin width)`, where each bin entry
/// is `(left edge, count)`. Bins span `[min, max]`; the maximum value is
/// clamped into the last bin. Empty input or no bins give no entries and
/// `(0, 0)` for the scalars. A zero spread (all values equal) keeps `bins`
/// entries, zero width, and the whole count in the middle bin, so the bin
/// counts of every non-empty input add up to the input length.
pub fn calculate_histogram(values: &Vec<i64>, bins: usize) -> (r: (Vec<(i64, i64)>, i64, i64))
    requires
        values@.len() <= MAX_LEN,
        values_bounded(values@),
        bins <= MAX_LEN,
    ensures
        (values@.len() == 0 || bins == 0) ==> r.0@.len() == 0 && r.1 == 0 && r.2 == 0,
        values@.len() > 0 && bins > 0 ==> hist_counts_sum(r.0@, bins as int)
            == values@.len(),
        values@.len() > 0 && bins > 0 && max_seq(values@) == min_seq(values@) ==> r.0@.len()
            == bins && r.1 as int == min_seq(values@) && r.2 == 0 && forall|k: int| 0 <= k
            < bins as int ==> (#[trigger] r.0@[k]).0 as int == min_seq(values@)
            && r.0@[k].1 as int == (if k == bins as int / 2 {
            values@.len() as int
        } else {
            0int
        }),
        values@.len() > 0 && bins > 0 && max_seq(values@) > min_seq(values@) ==> {
            let min = min_seq(values@);
            let range = max_seq(values@) - min;
            &&& r.0@.len() == bins
            &&& r.1 as int == min
            &&& r.2 as int == range / (bins as int)
            &&& forall|k: int| 0 <= k < bins as int ==> (#[trigger] r.0@[k]).0 == min + k * (
                range / (bins as int)) && r.0@[k].1 == count_in_bin(values@, min, range,
                bins as int, k)
        },
{
    if values.len() == 0 || bins == 0 {
        let empty: Vec<(i64, i64)> = Vec::new();
        return (empty, 0, 0);
    }
    let mut mn: i64 = values[0];
    let mut mx: i64 = values[0];
    let mut i: usize = 1;
    while i < values.len()
        invariant
            1 <= i <= values@.len(),
            values@.len() >= 1,
            mn as int == min_seq(values@.subrange(0, i as int)),
            mx as int == max_seq(values@.subrange(0, i as int)),
        decreases values@.len() - i,
    {
        let ghost pre = values@.subrange(0, i as int);
        if values[i] < mn {
            mn = values[i];
        }
        if values[i] > mx {
            mx = values[i];
        }
        i = i + 1;
        proof {
            assert(values@.subrange(0, i as int).drop_last() =~= pre);
        }
    }
    proof {
        assert(values@.subrange(0, 1).len() == 1);
        assert(values@.subrange(0, values@.len() as int) =~= values@);
        lemma_min_max(values@);
    }
    if mx == mn {
        let mut flat: Vec<(i64, i64)> = Vec::new();
        let mut k: usize = 0;
        while k < bins
            invariant
                0 <= k <= bins,
                bins <= MAX_LEN,
                values@.len() <= MAX_LEN,
                flat@.len() == k,
                forall|j: int| 0 <= j < k as int ==> (#[trigger] flat@[j]).0 == mn
                    && flat@[j].1 as int == (if j == bins as int / 2 {
                    values@.len() as int
                } else {
                    0int
                }),
            decreases bins - k,
        {
            if k == bins / 2 {
                flat.push((mn, values.len() as i64));
            } else {
                flat.push((mn, 0));
            }
            k = k + 1;
        }
        proof {
            vstd::arithmetic::div_mod::lemma_div_pos_is_pos(bins as int, 2);
            vstd::arithmetic::div_mod::lemma_div_is_strictly_smaller(bins as int, 2);
            lemma_hist_sum_single(flat@, bins as int, bins as int / 2,
                values@.len() as int, bins as int);
        }
        return (flat, mn, 0);
    }
    let range: i64 = mx - mn;
    let bw: i64 = range / (bins as i64);
    let ghost gmin: int = mn as int;
    let ghost grange: int = range as int;
    let ghost gbins: int = bins as int;

    let mut counts: Vec<i64> = Vec::new();
    let mut k: usize = 0;
    while k < bins
        invariant
            0 <= k <= bins,
            counts@.len() == k,
            forall|j: int| 0 <= j < k as int ==> counts@[j] == 0,
        decreases bins - k,
    {
        counts.push(0);
        k = k + 1;
    }
    proof {
        assert(values@.subrange(0, 0) =~= Seq::<i64>::empty());
    }
    let mut i2: usize = 0;
    while i2 < values.len()
        invariant
            0 <= i2 <= values@.len(),
            values@.len() <= MAX_LEN,
            values_bounded(values@),
            counts@.len() == gbins,
            1 <= gbins <= MAX_LEN as int,
            grange >= 1,
            mn as int == gmin,
            range as int == grange,
            bins as int == gbins,
            gmin == min_seq(values@),
            grange == max_seq(values@) - min_seq(values@),
            -VAL_BOUND <= gmin <= VAL_BOUND as int,
            forall|i: int| 0 <= i < values@.len() ==> gmin <= #[trigger] values@[i] as int
                <= gmin + grange,
            forall|j: int| 0 <= j < gbins ==> #[trigger] counts@[j] as int == count_in_bin(
                values@.subrange(0, i2 as int), gmin, grange, gbins, j),
        decreases values@.len() - i2,
    {
        let ghost pre = values@.subrange(0, i2 as int);
        let v = values[i2];
        proof {
            vstd::arithmetic::mul::lemma_mul_nonnegative((v as int) - gmin, gbins);
            assert(((v as int) - gmin) * gbins <= 0x1_0000_0000_0000_0000_0000int)
                by (nonlinear_arith)
                requires 0 <= (v as int) - gmin <= 0x10_0000_0000_0000int,
                    0 <= gbins <= 0x10_0000int;
        }
        let raw: i128 = ((v as i128) - (mn as i128)) * (bins as i128) / (range as i128);
        proof {
            lemma_div_pos_is_pos(((v as int) - gmin) * gbins, grange);
        }
        let idx: usize = if raw >= bins as i128 {
            bins - 1
        } else {
            raw as usize
        };
        proof {
            assert(idx as int == bin_index_spec(v as int, gmin, grange, gbins));
            lemma_count_in_bin_le(pre, gmin, grange, gbins, idx as int);
        }
        let c = counts[idx];
        counts.set(idx, c + 1);
        i2 = i2 + 1;
        proof {
            assert(values@.subrange(0, i2 as int).drop_last() =~= pre);
            assert(values@.subrange(0, i2 as int).last() == v);
        }
    }
    proof {
        assert(values@.subrange(0, values@.len() as int) =~= values@);
    }

    let mut out: Vec<(i64, i64)> = Vec::new();
    let mut k2: usize = 0;
    while k2 < bins
        invariant
            0 <= k2 <= bins,
            out@.len() == k2,
            counts@.len() == gbins,
            gbins == bins as int,
            1 <= gbins <= MAX_LEN as int,
            0 <= bw as int <= grange,
            1 <= grange <= 0x10_0000_0000_0000int,
            bw as int == grange / gbins,
            -VAL_BOUND <= mn as int <= VAL_BOUND as int,
            gmin == mn as int,
            forall|j: int| 0 <= j < gbins ==> #[trigger] counts@[j] as int == count_in_bin(
                values@, gmin, grange, gbins, j),
            forall|j: int| 0 <= j < k2 as int ==> (#[trigger] out@[j]).0 as int == gmin + j * (
                bw as int) && out@[j].1 == counts@[j],
        decreases bins - k2,
    {
        proof {
            vstd::arithmetic::div_mod::lemma_fundamental_div_mod(grange, gbins);
            vstd::arithmetic::mul::lemma_mul_inequality(k2 as int, gbins, bw as int);
            vstd::arithmetic::mul::lemma_mul_nonnegative(k2 as int, bw as int);
            assert(0 <= (k2 as int) * (bw as int) <= grange);
        }
        let edge: i64 = ((mn as i128) + (k2 as i128) * (bw as i128)) as i64;
        out.push((edge, counts[k2]));
        k2 = k2 + 1;
    }
    proof {
        vstd::arithmetic::div_mod::lemma_div_is_ordered(0, grange, gbins);
        vstd::arithmetic::div_mod::lemma_div_of0(gbins);
        lemma_hist_sum_matches_bins(out@, values@, gmin, grange, gbins, gbins);
        lemma_histogram_conservation(values@, gmin, grange, gbins);
    }
    (out, mn, bw)
}

/// Linear-interpolation percentile of an ascending sequence, at the
/// rational probability `num / den`: the value a fraction `num / den` of
/// the way along the sorted values, interpolating between neighbors.
/// (Distinct from the coarser index-based quartiles of the box plot,
/// which this crate deliberately keeps separate.)
pub open spec fn percentile_spec(sorted: Seq<i64>, num: int, den: int) -> int {
    let t = num * (sorted.len() - 1);
    let lo = t / den;
    let fr = t % den;
    let hi = if lo + 1 < sorted.len() {
        lo + 1
    } else {
        sorted.len() - 1
    };
    (sorted[lo] * (den - fr) + sorted[hi] * fr) / den
}

/// Interpolated percentile of an ascending value vector; see
/// [`percentile_spec`].
fn percentile_of_sorted(sorted: &Vec<i64>, num: u64, den: u64) -> (r: i64)
    requires
        1 <= sorted@.len() <= MAX_LEN,
        values_bounded(sorted@),
        0 < den <= 100,
        num <= den,
    ensures
        r as int == percentile_spec(sorted@, num as int, den as int),
{
    let n = sorted.len();
    proof {
        assert(0 <= (num as int) * (n - 1) <= 100 * (n - 1)) by (nonlinear_arith)
            requires 0 <= num as int <= 100, 1 <= n;
    }
    let t: u64 = num * ((n - 1) as u64);
    proof {
        vstd::arithmetic::mul::lemma_mul_inequality(num as int, den as int, n - 1);
        vstd::arithmetic::mul::lemma_mul_is_commutative(den as int, n - 1);
        lemma_div_is_ordered(t as int, (den as int) * (n - 1), den as int);
        lemma_div_multiples_vanish(n - 1, den as int);
        lemma_div_pos_is_pos(t as int, den as int);
        vstd::arithmetic::mul::lemma_mul_nonnegative(num as int, n - 1);
    }
    let lo: usize = (t / den) as usize;
    let fr: u64 = t % den;
    let hi: usize = if lo + 1 < n {
        lo + 1
    } else {
        n - 1
    };
    let a: i128 = sorted[lo] as i128;
    let b: i128 = sorted[hi] as i128;
    proof {
        vstd::arithmetic::div_mod::lemma_fundamental_div_mod(t as int, den as int);
        assert(-((VAL_BOUND as int) * (den as int)) <= (a as int) * ((den - fr) as int)
            + (b as int) * (fr as int) <= (VAL_BOUND as int) * (den as int)
            && -((VAL_BOUND as int) * (den as int)) <= (a as int) * ((den - fr) as int)
            <= (VAL_BOUND as int) * (den as int)
            && -((VAL_BOUND as int) * (den as int)) <= (b as int) * (fr as int)
            <= (VAL_BOUND as int) * (den as int))
            by (nonlinear_arith)
            requires
                -(VAL_BOUND as int) <= a as int <= VAL_BOUND as int,
                -(VAL_BOUND as int) <= b as int <= VAL_BOUND as int,
                0 <= fr as int <= den as int,
                0 < den as int <= 100;
    }
    let numer: i128 = a * ((den - fr) as i128) + b * (fr as i128);
    let q = crate::div_floor_i128(numer, den as i128);
    proof {
        lemma_div_is_ordered(numer as int, (den as int) * (VAL_BOUND as int), den as int);
        lemma_div_is_ordered(-((den as int) * (VAL_BOUND as int)), numer as int, den as int);
        lemma_div_multiples_vanish(VAL_BOUND as int, den as int);
        lemma_div_multiples_vanish(-(VAL_BOUND as int), den as int);
        vstd::arithmetic::mul::lemma_mul_is_commutative(den as int, VAL_BOUND as int);
    }
    q as i64
}

/// A snapshot of one column's statistics, including a fixed-bin histogram
/// for the sparkline.
#[derive(Clone, Debug)]
pub struct CachedStats {
    pub count: usize,
    pub min: i64,
    pub max: i64,
    pub mean: i64,
    pub median: i64,
    pub std_dev: i64,
    pub p5: i64,
    pub p25: i64,
    pub p75: i64,
    pub p95: i64,
    /// Bin counts for the sparkline.
    pub histogram: Vec<i64>,
    /// Largest bin count, for scaling.
    pub histogram_max: i64,
}

/// Number of sparkline histogram bins.
pub const SPARK_BINS: usize = 20;

/// Full statistics of one column: count, extremes, mean and standard
/// deviation, interpolated percentiles (including the median), and a
/// twenty-bin histogram. Empty input gives the all-zero snapshot. When
/// every value is equal, the histogram puts the whole count in the middle
/// bin.
/// Largest entry of a non-empty vector.
fn max_entry(values: &Vec<i64>) -> (r: i64)
    requires
        values@.len() >= 1,
    ensures
        forall|k: int| 0 <= k < values@.len() ==> #[trigger] values@[k] <= r,
        exists|k: int| 0 <= k < values@.len() && #[trigger] values@[k] == r,
{
    let mut hm: i64 = values[0];
    let mut k2: usize = 1;
    while k2 < values.len()
        invariant
            1 <= k2 <= values@.len(),
            forall|j: int| 0 <= j < k2 as int ==> #[trigger] values@[j] <= hm,
            exists|j: int| 0 <= j < k2 as int && #[trigger] values@[j] == hm,
        decreases values@.len() - k2,
    {
        if values[k2] > hm {
            hm = values[k2];
        }
        k2 = k2 + 1;
    }
    hm
}

/// The twenty-bin sparkline histogram of a non-empty column, with its
/// largest count.
#[verifier::rlimit(100)]
fn sparkline_histogram(values: &Vec<i64>) -> (r: (Vec<i64>, i64))
    requires
        1 <= values@.len() <= MAX_LEN,
        values_bounded(values@),
    ensures
        r.0@.len() == SPARK_BINS,
        max_seq(values@) > min_seq(values@) ==> forall|k: int| 0 <= k < SPARK_BINS as int
            ==> #[trigger] r.0@[k] as int == count_in_bin(values@, min_seq(values@),
            max_seq(values@) - min_seq(values@), SPARK_BINS as int, k),
        max_seq(values@) == min_seq(values@) ==> forall|k: int| 0 <= k < SPARK_BINS as int
            ==> #[trigger] r.0@[k] as int == (if k == SPARK_BINS as int / 2 {
            values@.len() as int
        } else {
            0int
        }),
        forall|k: int| 0 <= k < SPARK_BINS as int ==> #[trigger] r.0@[k] <= r.1,
        exists|k: int| 0 <= k < SPARK_BINS as int && #[trigger] r.0@[k] == r.1,
{
    let (hist_pairs, _mn_h, _bw) = calculate_histogram(values, SPARK_BINS);
    proof {
        lemma_min_max(values@);
    }
    let mut histogram: Vec<i64> = Vec::new();
    let mut k: usize = 0;
    while k < hist_pairs.len()
        invariant
            0 <= k <= hist_pairs@.len(),
            histogram@.len() == k,
            forall|j: int| 0 <= j < k as int ==> #[trigger] histogram@[j]
                == hist_pairs@[j].1,
        decreases hist_pairs@.len() - k,
    {
        histogram.push(hist_pairs[k].1);
        k = k + 1;
    }
    let hm: i64 = max_entry(&histogram);
    let rr = (histogram, hm);
    proof {
        assert(rr.0@.len() == SPARK_BINS as int);
        let w = choose|j: int| 0 <= j < rr.0@.len() && #[trigger] rr.0@[j] == hm;
        assert(0 <= w < SPARK_BINS as int && rr.0@[w] == rr.1);
        assert(exists|k: int| 0 <= k < SPARK_BINS as int && #[trigger] rr.0@[k] == rr.1);
    }
    rr
}

#[verifier::rlimit(100)]
#[verifier::spinoff_prover]
pub fn calculate_full_stats(values: &Vec<i64>) -> (r: CachedStats)
    requires
        values@.len() <= MAX_LEN,
        values_bounded(values@),
    ensures
        r.count == values@.len(),
        values@.len() == 0 ==> r.min == 0 && r.max == 0 && r.mean == 0 && r.median == 0
            && r.std_dev == 0 && r.histogram@.len() == 0 && r.histogram_max == 0,
        values@.len() > 0 ==> r.min as int == min_seq(values@) && r.max as int == max_seq(
            values@) && r.mean as int == mean_spec(values@) && r.std_dev as int
            == stddev_spec(values@),
        values@.len() > 0 ==> r.median as int == percentile_spec(values@.sort_by(
            value_leq()), 1, 2) && r.p5 as int == percentile_spec(values@.sort_by(
            value_leq()), 1, 20) && r.p25 as int == percentile_spec(values@.sort_by(
            value_leq()), 1, 4) && r.p75 as int == percentile_spec(values@.sort_by(
            value_leq()), 3, 4) && r.p95 as int == percentile_spec(values@.sort_by(
            value_leq()), 19, 20),
        values@.len() > 0 ==> r.histogram@.len() == SPARK_BINS,
        values@.len() > 0 && max_seq(values@) > min_seq(values@) ==> forall|k: int| 0 <= k
            < SPARK_BINS as int ==> #[trigger] r.histogram@[k] as int == count_in_bin(
            values@, min_seq(values@), max_seq(values@) - min_seq(values@),
            SPARK_BINS as int, k),
        values@.len() > 0 && max_seq(values@) == min_seq(values@) ==> forall|k: int| 0 <= k
            < SPARK_BINS as int ==> #[trigger] r.histogram@[k] as int == (if k
            == SPARK_BINS as int / 2 {
            values@.len() as int
        } else {
            0int
        }),
        values@.len() > 0 ==> (forall|k: int| 0 <= k < SPARK_BINS as int
            ==> #[trigger] r.histogram@[k] <= r.histogram_max) && (exists|k: int| 0 <= k
            < SPARK_BINS as int && #[trigger] r.histogram@[k] == r.histogram_max),
{
    if values.len() == 0 {
        return CachedStats {
            count: 0,
            min: 0,
            max: 0,
            mean: 0,
            median: 0,
            std_dev: 0,
            p5: 0,
            p25: 0,
            p75: 0,
            p95: 0,
            histogram: Vec::new(),
            histogram_max: 0,
        };
    }
    let sorted = sort_values(values);
    proof {
        broadcast use vstd::seq_lib::group_to_multiset_ensures;

        assert forall|k: int| 0 <= k < sorted@.len() implies
            -VAL_BOUND <= #[trigger] sorted@[k] <= VAL_BOUND by {
            assert(sorted@.contains(sorted@[k]));
            assert(sorted@.to_multiset().count(sorted@[k]) > 0);
            assert(values@.contains(sorted@[k]));
        }
    }
    let (mean, sd) = calculate_statistics(values);
    let median = percentile_of_sorted(&sorted, 1, 2);
    let p5 = percentile_of_sorted(&sorted, 1, 20);
    let p25 = percentile_of_sorted(&sorted, 1, 4);
    let p75 = percentile_of_sorted(&sorted, 3, 4);
    let p95 = percentile_of_sorted(&sorted, 19, 20);

    let (histogram, hm) = sparkline_histogram(values);
    let mn: i64 = sorted[0];
    let mx: i64 = sorted[sorted.len() - 1];
    proof {
        broadcast use vstd::seq_lib::group_to_multiset_ensures;

        lemma_min_max(values@);
        let gm = choose|i: int| 0 <= i < values@.len() && values@[i] as int == min_seq(
            values@);
        assert(values@.contains(values@[gm]));
        assert(values@.to_multiset().count(values@[gm]) > 0);
        assert(sorted@.to_multiset().count(values@[gm]) > 0);
        assert(sorted@.contains(values@[gm]));
        let sm = choose|i: int| 0 <= i < sorted@.len() && sorted@[i] == values@[gm];
        assert(sorted@[0] <= sorted@[sm]);
        let gx = choose|i: int| 0 <= i < values@.len() && values@[i] as int == max_seq(
            values@);
        assert(values@.contains(values@[gx]));
        assert(values@.to_multiset().count(values@[gx]) > 0);
        assert(sorted@.to_multiset().count(values@[gx]) > 0);
        assert(sorted@.contains(values@[gx]));
        let sx = choose|i: int| 0 <= i < sorted@.len() && sorted@[i] == values@[gx];
        assert(sorted@[sx] <= sorted@[sorted@.len() - 1]);
        assert(sorted@.contains(sorted@[0]));
        assert(sorted@.to_multiset().count(sorted@[0]) > 0);
        assert(values@.to_multiset().count(sorted@[0]) > 0);
        assert(values@.contains(sorted@[0]));
        assert(sorted@.contains(sorted@[sorted@.len() - 1]));
        assert(sorted@.to_multiset().count(sorted@[sorted@.len() - 1]) > 0);
        assert(values@.to_multiset().count(sorted@[sorted@.len() - 1]) > 0);
        assert(values@.contains(sorted@[sorted@.len() - 1]));
        assert(mn as int == min_seq(values@));
        assert(mx as int == max_seq(values@));
    }
    CachedStats {
        count: values.len(),
        min: mn,
        max: mx,
        mean,
        median,
        std_dev: sd,
        p5,
        p25,
        p75,
        p95,
        histogram,
        histogram_max: hm,
    }
}

/// Process capability indices `(Cp, Cpk)`, fixed point and clamped into the
/// i64 range: `Cp = (usl−lsl)/(6σ)` and `Cpk = min((usl−μ)/(3σ),
/// (μ−lsl)/(3σ))`. Degenerate inputs — empty data, `usl <= lsl`, or zero
/// standard deviation — give `(0, 0)`.
pub open spec fn capability_spec(s: Seq<i64>, lsl: int, usl: int) -> (int, int) {
    if s.len() == 0 || usl <= lsl {
        (0, 0)
    } else {
        let sd = stddev_spec(s);
        if sd == 0 {
            (0, 0)
        } else {
            let m = mean_spec(s);
            let scale = crate::SCALE as int;
            let cpu = (usl - m) * scale / (3 * sd);
            let cpl = (m - lsl) * scale / (3 * sd);
            (
                sat64((usl - lsl) * scale / (6 * sd)),
                sat64(if cpu <= cpl { cpu } else { cpl }),
            )
        }
    }
}

/// Process capability `(Cp, Cpk)`; see [`capability_spec`].
pub fn calculate_process_capability(values: &Vec<i64>, lsl: i64, usl: i64) -> (r: (i64, i64))
    requires
        values@.len() <= MAX_LEN,
        values_bounded(values@),
        -VAL_BOUND <= lsl <= VAL_BOUND,
        -VAL_BOUND <= usl <= VAL_BOUND,
    ensures
        (r.0 as int, r.1 as int) == capability_spec(values@, lsl as int, usl as int),
{
    if values.len() == 0 || usl <= lsl {
        return (0, 0);
    }
    let (mean, sd) = calculate_statistics(values);
    if sd == 0 {
        return (0, 0);
    }
    let scale: i128 = crate::SCALE as i128;
    let cp_w = crate::div_floor_i128(((usl as i128) - (lsl as i128)) * scale,
        6 * (sd as i128));
    let cpu_w = crate::div_floor_i128(((usl as i128) - (mean as i128)) * scale,
        3 * (sd as i128));
    let cpl_w = crate::div_floor_i128(((mean as i128) - (lsl as i128)) * scale,
        3 * (sd as i128));
    let cpk_w = if cpu_w <= cpl_w {
        cpu_w
    } else {
        cpl_w
    };
    let cp: i64 = if cp_w > i64::MAX as i128 {
        i64::MAX
    } else if cp_w < i64::MIN as i128 {
        i64::MIN
    } else {
        cp_w as i64
    };
    let cpk: i64 = if cpk_w > i64::MAX as i128 {
        i64::MAX
    } else if cpk_w < i64::MIN as i128 {
        i64::MIN
    } else {
        cpk_w as i64
    };
    (cp, cpk)
}

} // verus!
