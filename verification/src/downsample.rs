//! Point reduction for interactive plotting.
//!
//! The quality path is the largest-triangle-three-buckets reduction; the fast
//! path used while the user drags is a fixed-stride sample. The
//! [`AdaptiveDownsampler`] state machine picks between them.

use vstd::prelude::*;
use vstd::arithmetic::div_mod::{
    lemma_div_is_ordered, lemma_div_multiples_vanish, lemma_div_plus_one, lemma_div_pos_is_pos,
    lemma_fundamental_div_mod_converse,
};
use vstd::arithmetic::mul::{lemma_mul_basics, lemma_mul_is_distributive_add_other_way};

verus! {

/// One plottable point, in fixed-point coordinates (see [`crate::SCALE`]).
#[derive(Clone, Copy, Debug, PartialEq, Eq, Structural)]
pub struct Point {
    pub x: i64,
    pub y: i64,
}

/// Largest number of input points a reduction accepts.
pub const MAX_POINTS: usize = 1048576;

/// Largest coordinate magnitude a reduction accepts.
pub const MAX_COORD: i64 = 0x8_0000_0000_0000;

pub open spec fn in_coord_range(p: Point) -> bool {
    -MAX_COORD <= p.x <= MAX_COORD && -MAX_COORD <= p.y <= MAX_COORD
}

/// All coordinates of `data` are within [`MAX_COORD`].
pub open spec fn coords_bounded(data: Seq<Point>) -> bool {
    forall|i: int| 0 <= i < data.len() ==> #[trigger] in_coord_range(data[i])
}

/// Stride used by the fast path: every `step`-th point is kept.
pub open spec fn stride(len: int, target: int) -> int {
    if len / target >= 1 {
        len / target
    } else {
        1
    }
}

/// What the fast path returns: the points at indices `0, s, 2s, ...`.
pub open spec fn nth_sample_spec(data: Seq<Point>, target: int) -> Seq<Point> {
    let s = stride(data.len() as int, target);
    Seq::new((((data.len() + s - 1) / s) as nat), |k: int| data[k * s])
}

/// Copy of the input points, used by the no-reduction paths.
pub fn copy_points(data: &Vec<Point>) -> (r: Vec<Point>)
    ensures
        r@ == data@,
{
    let mut out: Vec<Point> = Vec::new();
    let mut i: usize = 0;
    while i < data.len()
        invariant
            0 <= i <= data@.len(),
            out@ == data@.subrange(0, i as int),
        decreases data@.len() - i,
    {
        out.push(data[i]);
        i = i + 1;
        proof {
            assert(out@ =~= data@.subrange(0, i as int));
        }
    }
    proof {
        assert(out@ =~= data@);
    }
    out
}

/// Fast nth-point sampling: keeps the points at indices `0, s, 2s, ...`
/// where `s` is `len / target` (at least 1).
pub fn nth_point_sample(data: &Vec<Point>, target: usize) -> (r: Vec<Point>)
    requires
        target > 0,
        data@.len() <= MAX_POINTS,
    ensures
        r@ == nth_sample_spec(data@, target as int),
{
    let step: usize = if data.len() / target >= 1 {
        data.len() / target
    } else {
        1
    };
    let mut out: Vec<Point> = Vec::new();
    let mut i: usize = 0;
    let ghost s: int = step as int;
    proof {
        lemma_mul_basics(s);
    }
    while i < data.len()
        invariant
            s == stride(data@.len() as int, target as int),
            step == s,
            1 <= s <= MAX_POINTS as int,
            data@.len() <= MAX_POINTS as int,
            out@.len() * s == i,
            i <= data@.len() + s - 1,
            forall|k: int| 0 <= k < out@.len() ==> #[trigger] out@[k] == data@[k * s],
        decreases data@.len() + s - i,
    {
        out.push(data[i]);
        i = i + step;
        proof {
            lemma_mul_is_distributive_add_other_way(s, out@.len() - 1, 1);
            lemma_mul_basics(s);
        }
    }
    proof {
        lemma_fundamental_div_mod_converse(
            data@.len() + s - 1, s, out@.len() as int, data@.len() + s - 1 - out@.len() * s);
        assert(out@ =~= nth_sample_spec(data@, target as int));
    }
    out
}

/// Left boundary of bucket `i` when `n` points are reduced to `t`: the first
/// and last points stand alone, and the `n - 2` interior points are split
/// into `t - 2` buckets of rational width `(n - 2) / (t - 2)`, with
/// boundaries rounded down.
pub open spec fn bucket_start(n: int, t: int, i: int) -> int {
    i * (n - 2) / (t - 2) + 1
}

/// Sum of the x coordinates of `data[lo..hi]`.
pub open spec fn sum_x(data: Seq<Point>, lo: int, hi: int) -> int
    decreases hi - lo,
{
    if lo >= hi {
        0
    } else {
        sum_x(data, lo, hi - 1) + data[hi - 1].x
    }
}

/// Sum of the y coordinates of `data[lo..hi]`.
pub open spec fn sum_y(data: Seq<Point>, lo: int, hi: int) -> int
    decreases hi - lo,
{
    if lo >= hi {
        0
    } else {
        sum_y(data, lo, hi - 1) + data[hi - 1].y
    }
}

/// Twice the area of the triangle spanned by anchor `a`, candidate `p`, and
/// the centroid of a bucket with coordinate sums `(sx, sy)` over `c` points,
/// scaled by `c` to stay in integers.
pub open spec fn tri_area2(a: Point, sx: int, sy: int, c: int, p: Point) -> int {
    vstd::math::abs((a.x * c - sx) * (p.y - a.y) - (a.x - p.x) * (sy - a.y * c)) as int
}

/// Result of scanning candidates `lo..j` for the largest triangle area:
/// `(best index, best area)`, where ties and all-zero areas keep the
/// earliest candidate (the scan starts from a zero sentinel area).
pub open spec fn scan_best(data: Seq<Point>, a: Point, sx: int, sy: int, c: int, lo: int, j: int)
    -> (int, int)
    decreases j - lo,
{
    if j <= lo {
        (lo, 0)
    } else {
        let prev = scan_best(data, a, sx, sy, c, lo, j - 1);
        let ar = tri_area2(a, sx, sy, c, data[j - 1]);
        if ar > prev.1 {
            (j - 1, ar)
        } else {
            prev
        }
    }
}

/// Upper end of the averaging bucket that follows bucket `i` (clamped to the
/// end of the data).
pub open spec fn avg_end(n: int, t: int, i: int) -> int {
    if bucket_start(n, t, i + 2) < n {
        bucket_start(n, t, i + 2)
    } else {
        n
    }
}

/// Index selected within bucket `i`, given that the previously selected
/// point is `data[a]`: the candidate forming the largest triangle with
/// `data[a]` and the centroid of the following bucket.
pub open spec fn lttb_pick(data: Seq<Point>, t: int, i: int, a: int) -> int {
    let n = data.len() as int;
    let lo = bucket_start(n, t, i);
    let hi = bucket_start(n, t, i + 1);
    let ahi = avg_end(n, t, i);
    scan_best(
        data,
        data[a],
        sum_x(data, hi, ahi),
        sum_y(data, hi, ahi),
        ahi - hi,
        lo,
        hi,
    ).0
}

/// Index of the point selected for output position `i` (position 0 is the
/// first input point; positions `1..t-1` are the bucket selections, chained
/// through the anchors).
pub open spec fn lttb_index(data: Seq<Point>, t: int, i: int) -> int
    decreases i,
{
    if i <= 0 {
        0
    } else {
        lttb_pick(data, t, i - 1, lttb_index(data, t, i - 1))
    }
}

/// The full reduction: endpoints kept, one selection per interior bucket.
/// When no reduction applies (`t < 3` or `data.len() <= t`) the input is
/// returned unchanged.
pub open spec fn lttb_spec(data: Seq<Point>, t: int) -> Seq<Point> {
    if data.len() <= t || t < 3 {
        data
    } else {
        Seq::new(t as nat, |i: int|
            if i < t - 1 {
                data[lttb_index(data, t, i)]
            } else {
                data[data.len() - 1]
            })
    }
}

/// Bucket boundaries step by at least one index per bucket, so every bucket
/// holds at least one point.
proof fn lemma_bucket_step(n: int, t: int, i: int)
    requires
        3 <= t < n,
        0 <= i,
    ensures
        bucket_start(n, t, i) + 1 <= bucket_start(n, t, i + 1),
{
    let d = t - 2;
    let a0 = i * (n - 2);
    assert((i + 1) * (n - 2) == a0 + (n - 2)) by (nonlinear_arith)
        requires a0 == i * (n - 2);
    lemma_div_is_ordered(a0 + d, a0 + (n - 2), d);
    lemma_div_plus_one(a0, d);
}

/// Bucket boundaries of the interior buckets stay within the interior
/// point range.
proof fn lemma_bucket_range(n: int, t: int, i: int)
    requires
        3 <= t < n,
        0 <= i <= t - 2,
    ensures
        1 <= bucket_start(n, t, i) <= n - 1,
{
    let d = t - 2;
    let a0 = i * (n - 2);
    assert(0 <= a0 && a0 <= d * (n - 2)) by (nonlinear_arith)
        requires 0 <= i <= d, n - 2 >= 0, a0 == i * (n - 2);
    lemma_div_pos_is_pos(a0, d);
    lemma_div_is_ordered(a0, d * (n - 2), d);
    lemma_div_multiples_vanish(n - 2, d);
}

/// Even the boundary that overshoots the data end (used only after
/// clamping) is small enough for index arithmetic.
proof fn lemma_bucket_loose_bound(n: int, t: int, i: int)
    requires
        3 <= t < n,
        0 <= i <= t - 2,
    ensures
        0 <= bucket_start(n, t, i + 2) <= 3 * (n - 2) + 1,
{
    let d = t - 2;
    let a2 = (i + 2) * (n - 2);
    assert(0 <= a2 && a2 <= d * (3 * (n - 2))) by (nonlinear_arith)
        requires 1 <= d, 0 <= i <= d, n - 2 >= 1, a2 == (i + 2) * (n - 2);
    lemma_div_pos_is_pos(a2, d);
    lemma_div_is_ordered(a2, d * (3 * (n - 2)), d);
    lemma_div_multiples_vanish(3 * (n - 2), d);
}

/// Largest-triangle-three-buckets reduction of `data` to `threshold` points.
///
/// The first and last input points are always kept; each interior bucket
/// contributes the point that forms the largest triangle with the previous
/// selection and the centroid of the following bucket. Inputs already at or
/// below the target, or a target below 3, are returned unchanged.
pub fn lttb_downsample(data: &Vec<Point>, threshold: usize) -> (r: Vec<Point>)
    requires
        data@.len() <= MAX_POINTS,
        coords_bounded(data@),
    ensures
        r@ == lttb_spec(data@, threshold as int),
        data@.len() > threshold && threshold >= 3 ==> r@.len() == threshold,
{
    let n = data.len();
    if n <= threshold || threshold < 3 {
        let r = copy_points(data);
        assert(r@ =~= lttb_spec(data@, threshold as int));
        return r;
    }
    let t = threshold;
    let ghost gn: int = n as int;
    let ghost gt: int = t as int;

    let mut out: Vec<Point> = Vec::new();
    out.push(data[0]);

    let mut a: usize = 0;
    let mut i: usize = 0;
    while i < t - 2
        invariant
            3 <= gt < gn <= MAX_POINTS as int,
            gn == data@.len(),
            gt == t as int,
            t < n,
            n == gn,
            coords_bounded(data@),
            0 <= i <= t - 2,
            out@.len() == i + 1,
            a as int == lttb_index(data@, gt, i as int),
            a < n,
            forall|k: int| 0 <= k <= i as int
                ==> #[trigger] out@[k] == data@[lttb_index(data@, gt, k)],
        decreases t - i,
    {
        let ghost gi: int = i as int;
        let ghost olda: int = a as int;
        proof {
            lemma_bucket_step(gn, gt, gi);
            lemma_bucket_step(gn, gt, gi + 1);
            lemma_bucket_range(gn, gt, gi);
            lemma_bucket_range(gn, gt, gi + 1);
            lemma_bucket_loose_bound(gn, gt, gi);
            assert((gi + 2) * (gn - 2) <= (MAX_POINTS as int) * (MAX_POINTS as int))
                by (nonlinear_arith)
                requires 0 <= gi, gi + 2 <= gn, gn <= MAX_POINTS as int;
            assert((gi + 1) * (gn - 2) <= (gi + 2) * (gn - 2) && gi * (gn - 2) <= (gi + 2) * (gn
                - 2) && 0 <= gi * (gn - 2) && 0 <= (gi + 1) * (gn - 2)) by (nonlinear_arith)
                requires 0 <= gi, 2 <= gn;
        }
        let lo: usize = (((i as u64) * ((n - 2) as u64)) / ((t - 2) as u64)) as usize + 1;
        let hi: usize = ((((i + 1) as u64) * ((n - 2) as u64)) / ((t - 2) as u64)) as usize + 1;
        let b2: usize = ((((i + 2) as u64) * ((n - 2) as u64)) / ((t - 2) as u64)) as usize + 1;
        let ahi: usize = if b2 < n { b2 } else { n };
        assert(lo as int == bucket_start(gn, gt, gi));
        assert(hi as int == bucket_start(gn, gt, gi + 1));
        assert(b2 as int == bucket_start(gn, gt, gi + 2));
        assert(ahi as int == avg_end(gn, gt, gi));
        let c: usize = ahi - hi;

        // Coordinate sums of the averaging bucket.
        let mut sx: i128 = 0;
        let mut sy: i128 = 0;
        let mut j: usize = hi;
        while j < ahi
            invariant
                hi <= j <= ahi,
                ahi <= gn,
                gn == data@.len(),
                gn <= MAX_POINTS as int,
                coords_bounded(data@),
                sx as int == sum_x(data@, hi as int, j as int),
                sy as int == sum_y(data@, hi as int, j as int),
                -((j - hi) * (MAX_COORD as int)) <= sx as int <= (j - hi) * (MAX_COORD as int),
                -((j - hi) * (MAX_COORD as int)) <= sy as int <= (j - hi) * (MAX_COORD as int),
            decreases ahi - j,
        {
            assert(in_coord_range(data@[j as int]));
            sx = sx + data[j].x as i128;
            sy = sy + data[j].y as i128;
            j = j + 1;
        }
        proof {
            vstd::arithmetic::mul::lemma_mul_inequality(
                ahi - hi, MAX_POINTS as int, MAX_COORD as int);
        }

        // Scan the current bucket for the largest triangle area.
        let pa: Point = data[a];
        let mut best: usize = lo;
        let mut best_area: i128 = 0;
        let mut j2: usize = lo;
        proof {
            assert(in_coord_range(data@[olda]));
        }
        while j2 < hi
            invariant
                lo <= j2 <= hi,
                hi <= gn - 1,
                lo <= best < hi,
                gn == data@.len(),
                gn <= MAX_POINTS as int,
                coords_bounded(data@),
                pa == data@[olda],
                0 <= olda < gn,
                in_coord_range(pa),
                hi <= ahi <= gn,
                c as int == ahi - hi,
                sx as int == sum_x(data@, hi as int, ahi as int),
                sy as int == sum_y(data@, hi as int, ahi as int),
                -((MAX_POINTS as int) * (MAX_COORD as int)) <= sx as int
                    <= (MAX_POINTS as int) * (MAX_COORD as int),
                -((MAX_POINTS as int) * (MAX_COORD as int)) <= sy as int
                    <= (MAX_POINTS as int) * (MAX_COORD as int),
                (best as int, best_area as int) == scan_best(
                    data@, pa, sx as int, sy as int, c as int, lo as int, j2 as int),
            decreases hi - j2,
        {
            assert(in_coord_range(data@[j2 as int]));
            let p = data[j2];
            proof {
                assert(-((MAX_COORD as int) * (MAX_POINTS as int)) <= (pa.x as int) * (c as int)
                    <= (MAX_COORD as int) * (MAX_POINTS as int)
                    && -((MAX_COORD as int) * (MAX_POINTS as int)) <= (pa.y as int) * (c as int)
                    <= (MAX_COORD as int) * (MAX_POINTS as int)) by (nonlinear_arith)
                    requires
                        -(MAX_COORD as int) <= pa.x as int <= MAX_COORD as int,
                        -(MAX_COORD as int) <= pa.y as int <= MAX_COORD as int,
                        0 <= c as int <= MAX_POINTS as int;
            }
            let t1: i128 = (pa.x as i128) * (c as i128) - sx;
            let t2: i128 = (p.y as i128) - (pa.y as i128);
            let t3: i128 = (pa.x as i128) - (p.x as i128);
            let t4: i128 = sy - (pa.y as i128) * (c as i128);
            proof {
                assert(-(4 * ((MAX_COORD as int) * (MAX_POINTS as int)) * (MAX_COORD as int))
                    <= (t1 as int) * (t2 as int)
                    <= 4 * ((MAX_COORD as int) * (MAX_POINTS as int)) * (MAX_COORD as int)
                    && -(4 * ((MAX_COORD as int) * (MAX_POINTS as int)) * (MAX_COORD as int))
                    <= (t3 as int) * (t4 as int)
                    <= 4 * ((MAX_COORD as int) * (MAX_POINTS as int)) * (MAX_COORD as int))
                    by (nonlinear_arith)
                    requires
                        -(2 * ((MAX_COORD as int) * (MAX_POINTS as int))) <= t1 as int
                            <= 2 * ((MAX_COORD as int) * (MAX_POINTS as int)),
                        -(2 * (MAX_COORD as int)) <= t2 as int <= 2 * (MAX_COORD as int),
                        -(2 * (MAX_COORD as int)) <= t3 as int <= 2 * (MAX_COORD as int),
                        -(2 * ((MAX_COORD as int) * (MAX_POINTS as int))) <= t4 as int
                            <= 2 * ((MAX_COORD as int) * (MAX_POINTS as int));
            }
            let u1: i128 = t1 * t2;
            let u2: i128 = t3 * t4;
            let s: i128 = u1 - u2;
            let ar: i128 = if s < 0 { -s } else { s };
            assert(ar as int == tri_area2(pa, sx as int, sy as int, c as int, data@[j2 as int]));
            if ar > best_area {
                best = j2;
                best_area = ar;
            }
            j2 = j2 + 1;
            proof {
                assert((best as int, best_area as int) == scan_best(
                    data@, pa, sx as int, sy as int, c as int, lo as int, j2 as int));
            }
        }

        out.push(data[best]);
        a = best;
        i = i + 1;
        proof {
            assert(lttb_pick(data@, gt, gi, olda) == best as int);
            assert(a as int == lttb_index(data@, gt, i as int));
        }
    }
    out.push(data[n - 1]);
    proof {
        assert(out@ =~= lttb_spec(data@, threshold as int));
    }
    out
}

/// The scan result stays inside the scanned range (or at its start when the
/// range is empty or no area beats the zero sentinel).
proof fn lemma_scan_best_range(data: Seq<Point>, a: Point, sx: int, sy: int, c: int, lo: int,
    j: int)
    ensures
        scan_best(data, a, sx, sy, c, lo, j).0 == lo
            || lo <= scan_best(data, a, sx, sy, c, lo, j).0 < j,
    decreases j - lo,
{
    if j > lo {
        lemma_scan_best_range(data, a, sx, sy, c, lo, j - 1);
    }
}

/// Every interior selection lies inside its own bucket.
pub proof fn lemma_lttb_index_range(data: Seq<Point>, t: int, i: int)
    requires
        3 <= t < data.len(),
        1 <= i <= t - 2,
    ensures
        bucket_start(data.len() as int, t, i - 1) <= lttb_index(data, t, i)
            < bucket_start(data.len() as int, t, i),
    decreases i,
{
    let n = data.len() as int;
    let a = lttb_index(data, t, i - 1);
    lemma_scan_best_range(
        data,
        data[a],
        sum_x(data, bucket_start(n, t, i), avg_end(n, t, i - 1)),
        sum_y(data, bucket_start(n, t, i), avg_end(n, t, i - 1)),
        avg_end(n, t, i - 1) - bucket_start(n, t, i),
        bucket_start(n, t, i - 1),
        bucket_start(n, t, i),
    );
    lemma_bucket_step(n, t, i - 1);
}

/// The reduction keeps the endpoints: for any reducible input
/// (`3 <= t < data.len()`), the output has exactly `t` points, and its first
/// and last points are the first and last input points.
pub proof fn lemma_lttb_endpoints(data: Seq<Point>, t: int)
    requires
        3 <= t < data.len(),
    ensures
        lttb_spec(data, t).len() == t,
        lttb_spec(data, t)[0] == data[0],
        lttb_spec(data, t)[t - 1] == data[data.len() - 1],
{
}

/// When the target does not call for a reduction (`t >= data.len()`), the
/// output is the input, unchanged.
pub proof fn lemma_lttb_no_op(data: Seq<Point>, t: int)
    requires
        t >= data.len(),
    ensures
        lttb_spec(data, t) == data,
{
}

/// The chain of selected indices is strictly increasing.
proof fn lemma_lttb_index_mono(data: Seq<Point>, t: int, i: int)
    requires
        3 <= t < data.len(),
        0 <= i <= t - 3,
    ensures
        0 <= lttb_index(data, t, i) < lttb_index(data, t, i + 1) < data.len() - 1,
    decreases i,
{
    let n = data.len() as int;
    lemma_lttb_index_range(data, t, i + 1);
    lemma_bucket_range(n, t, i + 1);
    if i == 0 {
        lemma_bucket_range(n, t, 0);
    } else {
        lemma_lttb_index_range(data, t, i);
    }
}

/// The reduction never reorders: if the input x coordinates are
/// non-decreasing in index order, so are the output's. (The output points
/// are input points taken at strictly increasing indices.)
pub proof fn lemma_lttb_preserves_x_order(data: Seq<Point>, t: int)
    requires
        forall|i: int, j: int| 0 <= i <= j < data.len() ==> data[i].x <= data[j].x,
    ensures
        forall|i: int, j: int| 0 <= i <= j < lttb_spec(data, t).len()
            ==> lttb_spec(data, t)[i].x <= lttb_spec(data, t)[j].x,
{
    let n = data.len() as int;
    let out = lttb_spec(data, t);
    if data.len() <= t || t < 3 {
    } else {
        assert forall|k: int| 0 <= k < t - 1 implies
            0 <= #[trigger] lttb_index(data, t, k) < n - 1 by {
            if k == 0 {
            } else {
                lemma_lttb_index_mono(data, t, k - 1);
            }
        }
        assert forall|k: int| 0 <= k < t - 2 implies
            #[trigger] lttb_index(data, t, k) <= lttb_index(data, t, k + 1) by {
            lemma_lttb_index_mono(data, t, k);
        }
        assert forall|i: int, j: int| 0 <= i <= j < t - 1 implies
            #[trigger] lttb_index(data, t, i) <= #[trigger] lttb_index(data, t, j) by {
            lemma_lttb_index_chain(data, t, i, j);
        }
        assert forall|i: int, j: int| 0 <= i <= j < out.len() implies
            out[i].x <= out[j].x by {
            if j < t - 1 {
                assert(lttb_index(data, t, i) <= lttb_index(data, t, j));
            } else if i < t - 1 {
                assert(0 <= lttb_index(data, t, i) < n - 1);
            }
        }
    }
}

/// Transitive chaining of the per-step index monotonicity.
proof fn lemma_lttb_index_chain(data: Seq<Point>, t: int, i: int, j: int)
    requires
        3 <= t < data.len(),
        0 <= i <= j <= t - 2,
    ensures
        lttb_index(data, t, i) <= lttb_index(data, t, j),
    decreases j - i,
{
    if i < j {
        lemma_lttb_index_chain(data, t, i, j - 1);
        lemma_lttb_index_mono(data, t, j - 1);
    }
}

/// The fast stride path never reorders either: every mode of the adaptive
/// reduction (pass-through, stride sampling, and the full reduction, whose
/// own lemma is [`lemma_lttb_preserves_x_order`]) keeps non-decreasing x.
pub proof fn lemma_nth_sample_preserves_x_order(data: Seq<Point>, target: int)
    requires
        target > 0,
        forall|i: int, j: int| 0 <= i <= j < data.len() ==> data[i].x <= data[j].x,
    ensures
        forall|i: int, j: int| 0 <= i <= j < nth_sample_spec(data, target).len()
            ==> nth_sample_spec(data, target)[i].x <= nth_sample_spec(data, target)[j].x,
{
    let s = stride(data.len() as int, target);
    let out = nth_sample_spec(data, target);
    assert(1 <= s) by {
        vstd::arithmetic::div_mod::lemma_div_pos_is_pos(data.len() as int, target);
    }
    assert forall|i: int, j: int| 0 <= i <= j < out.len() implies out[i].x <= out[j].x by {
        vstd::arithmetic::div_mod::lemma_fundamental_div_mod(data.len() + s - 1, s);
        vstd::arithmetic::mul::lemma_mul_is_commutative(s, out.len() as int);
        assert(out.len() * s <= data.len() + s - 1);
        vstd::arithmetic::mul::lemma_mul_inequality(i, j, s);
        vstd::arithmetic::mul::lemma_mul_inequality(j, out.len() - 1, s);
        assert((out.len() - 1) * s == out.len() * s - s) by (nonlinear_arith);
        assert(j * s <= data.len() - 1);
        assert(0 <= i * s) by {
            vstd::arithmetic::mul::lemma_mul_nonnegative(i, s);
        }
    }
}

/// Mode switch that trades reduction quality for latency while the user is
/// interacting with the plot.
pub struct AdaptiveDownsampler {
    pub is_interacting: bool,
    pub settle_frames: u8,
}

impl AdaptiveDownsampler {
    /// True when the fast (stride) path will be used for the next frame.
    pub open spec fn fast_mode(self) -> bool {
        self.is_interacting || self.settle_frames > 0
    }

    pub fn new() -> (r: Self)
        ensures
            !r.fast_mode(),
    {
        AdaptiveDownsampler { is_interacting: false, settle_frames: 0 }
    }

    pub fn is_fast_mode(&self) -> (r: bool)
        ensures
            r == self.fast_mode(),
    {
        self.is_interacting || self.settle_frames > 0
    }

    /// Immediately returns to the quality path (used after a data reload,
    /// when a stale fast-mode sample would describe the old data).
    pub fn force_settle(&mut self)
        ensures
            !final(self).fast_mode(),
    {
        self.settle_frames = 0;
        self.is_interacting = false;
    }

    /// Reduce `data` to about `target` points, choosing the path from the
    /// interaction state: dragging resets the ten-frame countdown and keeps
    /// the fast stride sample; each non-dragging call counts the countdown
    /// down; a settled plot gets the full reduction.
    pub fn downsample(&mut self, data: &Vec<Point>, target: usize, currently_dragging: bool)
        -> (r: Vec<Point>)
        requires
            3 <= target,
            data@.len() <= MAX_POINTS,
            coords_bounded(data@),
        ensures
            currently_dragging ==> *final(self)
                == (AdaptiveDownsampler { is_interacting: true, settle_frames: 10 }),
            !currently_dragging && old(self).settle_frames > 0 ==> *final(self)
                == (AdaptiveDownsampler {
                    is_interacting: old(self).is_interacting,
                    settle_frames: (old(self).settle_frames - 1) as u8,
                }),
            !currently_dragging && old(self).settle_frames == 0 ==> *final(self)
                == (AdaptiveDownsampler { is_interacting: false, settle_frames: 0 }),
            data@.len() <= target ==> r@ == data@,
            data@.len() > target && (currently_dragging || old(self).settle_frames > 0)
                ==> r@ == nth_sample_spec(data@, target as int),
            data@.len() > target && !currently_dragging && old(self).settle_frames == 0
                ==> r@ == lttb_spec(data@, target as int),
    {
        let use_fast: bool;
        if currently_dragging {
            self.is_interacting = true;
            self.settle_frames = 10;
            use_fast = true;
        } else if self.settle_frames > 0 {
            self.settle_frames = self.settle_frames - 1;
            use_fast = true;
        } else {
            self.is_interacting = false;
            use_fast = false;
        }
        if data.len() <= target {
            return copy_points(data);
        }
        if use_fast {
            nth_point_sample(data, target)
        } else {
            lttb_downsample(data, target)
        }
    }
}

} // verus!
