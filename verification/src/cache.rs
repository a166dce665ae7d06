//! Downsample cache with zoom-level quantization.
//!
//! The visible x-range is quantized into logarithmic buckets so that small
//! pan and zoom steps reuse a cached reduction; the cache is keyed by
//! `(series id, zoom bucket)` and evicts its oldest half in bulk when full.

use vstd::prelude::*;
use crate::downsample::Point;

verus! {

/// Floor of the base-2 logarithm of `w` (0 for `w < 2`).
pub open spec fn log2_floor(w: int) -> int
    decreases w,
{
    if w < 2 {
        0
    } else {
        1 + log2_floor(w / 2)
    }
}

/// Zoom bucket of a visible-range width (fixed point, see [`crate::SCALE`]):
/// the floor of twice the base-2 logarithm of the real-valued width, so
/// that widths within a factor of the square root of two share a bucket.
/// Non-positive widths all map to bucket 0.
///
/// For a positive width `w`, twice its logarithm is the logarithm of `w²`,
/// and dividing by the scale shifts the result by `2 * log2(SCALE) = 40`.
pub open spec fn zoom_bucket_spec(width: int) -> int {
    if width <= 0 {
        0
    } else {
        log2_floor(width * width) - 40
    }
}

proof fn lemma_log2_floor_nonneg(w: int)
    ensures
        log2_floor(w) >= 0,
    decreases w,
{
    if w >= 2 {
        lemma_log2_floor_nonneg(w / 2);
    }
}

proof fn lemma_log2_floor_bounded(w: int, m: nat)
    requires
        1 <= m,
        1 <= w < vstd::arithmetic::power2::pow2(m),
    ensures
        log2_floor(w) <= m - 1,
    decreases w,
{
    if w >= 2 {
        vstd::arithmetic::power2::lemma_pow2_unfold(m);
        assert(w / 2 < vstd::arithmetic::power2::pow2((m - 1) as nat));
        assert(m >= 2) by {
            vstd::arithmetic::power2::lemma2_to64();
            vstd::arithmetic::power2::lemma_pow2_unfold(m);
        }
        lemma_log2_floor_bounded(w / 2, (m - 1) as nat);
    }
}

/// Zoom bucket of a fixed-point range width; see [`zoom_bucket_spec`].
pub fn zoom_bucket(visible_range: i64) -> (r: i32)
    ensures
        r as int == zoom_bucket_spec(visible_range as int),
{
    if visible_range <= 0 {
        return 0;
    }
    proof {
        assert(1 <= (visible_range as int) * (visible_range as int)
            < 0x4000_0000_0000_0000_0000_0000_0000_0000int) by (nonlinear_arith)
            requires 1 <= visible_range as int <= 0x7fff_ffff_ffff_ffffint;
    }
    let sq: u128 = ((visible_range as i128) * (visible_range as i128)) as u128;
    proof {
        vstd::arithmetic::power2::lemma2_to64();
        vstd::arithmetic::power2::lemma_pow2_adds(64, 64);
        assert(vstd::arithmetic::power2::pow2(128)
            == 0x1_0000_0000_0000_0000_0000_0000_0000_0000nat);
        lemma_log2_floor_bounded(sq as int, 128);
        lemma_log2_floor_nonneg(sq as int);
    }
    let mut v: u128 = sq;
    let mut k: i32 = 0;
    while v >= 2
        invariant
            1 <= v,
            0 <= k,
            k + log2_floor(v as int) == log2_floor(sq as int),
            log2_floor(sq as int) <= 127,
        decreases v,
    {
        proof {
            lemma_log2_floor_nonneg(v as int / 2);
        }
        v = v / 2;
        k = k + 1;
    }
    k - 40
}

/// One cached reduction.
pub struct CacheEntry {
    pub series_id: usize,
    pub bucket: i32,
    pub points: Vec<Point>,
}

/// Cache statistics snapshot.
#[derive(Clone, Copy, Debug, PartialEq, Eq, Structural)]
pub struct CacheStats {
    /// Number of cache entries.
    pub entries: usize,
    /// Total cached points over all entries (saturating).
    pub total_points: usize,
    /// Estimated memory use: sixteen bytes (two 8-byte coordinates) per
    /// point (saturating).
    pub estimated_bytes: usize,
}

/// Predicate for [`LttbCache::invalidate_series`]: keeps entries of other
/// series.
pub open spec fn not_series(series: int) -> spec_fn((int, int, Seq<Point>)) -> bool {
    |e: (int, int, Seq<Point>)| e.0 != series
}

/// Each filtered element comes from the original sequence, and two
/// filtered positions come from two original positions in the same order.
proof fn lemma_filter_index_one<A>(s: Seq<A>, pred: spec_fn(A) -> bool, k: int)
    requires
        0 <= k < s.filter(pred).len(),
    ensures
        exists|j: int| 0 <= j < s.len() && s[j] == s.filter(pred)[k],
    decreases s.len(),
{
    reveal(Seq::filter);
    if s.len() > 0 {
        if pred(s.last()) && k == s.filter(pred).len() - 1 {
            assert(s[s.len() - 1] == s.filter(pred)[k]);
        } else {
            lemma_filter_index_one(s.drop_last(), pred, k);
        }
    }
}

proof fn lemma_filter_indices<A>(s: Seq<A>, pred: spec_fn(A) -> bool, k1: int, k2: int)
    requires
        0 <= k1 < k2 < s.filter(pred).len(),
    ensures
        exists|j1: int, j2: int| 0 <= j1 < j2 < s.len() && s[j1] == s.filter(pred)[k1]
            && s[j2] == s.filter(pred)[k2],
    decreases s.len(),
{
    reveal(Seq::filter);
    if s.len() > 0 {
        if pred(s.last()) && k2 == s.filter(pred).len() - 1 {
            lemma_filter_index_one(s.drop_last(), pred, k1);
            let j1 = choose|j: int| 0 <= j < s.drop_last().len()
                && s.drop_last()[j] == s.drop_last().filter(pred)[k1];
            assert(s[j1] == s.filter(pred)[k1]);
            assert(s[s.len() - 1] == s.filter(pred)[k2]);
        } else {
            lemma_filter_indices(s.drop_last(), pred, k1, k2);
            let (j1, j2) = choose|j1: int, j2: int| 0 <= j1 < j2 < s.drop_last().len()
                && s.drop_last()[j1] == s.drop_last().filter(pred)[k1]
                && s.drop_last()[j2] == s.drop_last().filter(pred)[k2];
            assert(s[j1] == s.filter(pred)[k1]);
            assert(s[j2] == s.filter(pred)[k2]);
        }
    }
}

/// The key `(series, bucket)` appears in `c`.
pub open spec fn cache_has(c: Seq<(int, int, Seq<Point>)>, series: int, bucket: int) -> bool {
    exists|k: int| 0 <= k < c.len() && (#[trigger] c[k]).0 == series && c[k].1 == bucket
}

/// Saturating sum of the point counts of `c`.
pub open spec fn sat_point_count(c: Seq<(int, int, Seq<Point>)>) -> int
    decreases c.len(),
{
    if c.len() == 0 {
        0
    } else {
        let rest = sat_point_count(c.drop_last());
        if rest + c.last().2.len() > usize::MAX {
            usize::MAX as int
        } else {
            rest + c.last().2.len()
        }
    }
}

/// Reduction cache keyed by `(series id, zoom bucket)`.
pub struct LttbCache {
    entries: Vec<CacheEntry>,
    target_points: usize,
    max_entries: usize,
}

impl LttbCache {
    /// The cached associations, as plain values: `(series, bucket, points)`
    /// in insertion order.
    pub closed spec fn contents(self) -> Seq<(int, int, Seq<Point>)> {
        self.entries@.map_values(
            |e: CacheEntry| (e.series_id as int, e.bucket as int, e.points@))
    }

    pub closed spec fn target(self) -> int {
        self.target_points as int
    }

    /// The target point count, at its machine type (for closure contracts).
    pub closed spec fn target_usize(self) -> usize {
        self.target_points
    }

    pub closed spec fn capacity(self) -> int {
        self.max_entries as int
    }

    /// Each `(series, bucket)` key occurs at most once.
    pub open spec fn wf(self) -> bool {
        forall|k1: int, k2: int| 0 <= k1 < k2 < self.contents().len()
            ==> !((#[trigger] self.contents()[k1]).0 == (#[trigger] self.contents()[k2]).0
                && self.contents()[k1].1 == self.contents()[k2].1)
    }

    /// A fresh cache that reduces to `target_points` and holds at most 100
    /// entries.
    pub fn new(target_points: usize) -> (r: Self)
        ensures
            r.contents().len() == 0,
            r.target() == target_points,
            r.capacity() == 100,
            r.wf(),
    {
        let r = LttbCache { entries: Vec::new(), target_points, max_entries: 100 };
        proof {
            assert(r.contents() =~= Seq::<(int, int, Seq<Point>)>::empty());
        }
        r
    }

    /// Index of the entry for `(series_id, bucket)`, if one is cached.
    fn find_entry(&self, series_id: usize, bucket: i32) -> (r: Option<usize>)
        ensures
            match r {
                Some(k) => 0 <= k < self.contents().len()
                    && self.contents()[k as int].0 == series_id as int
                    && self.contents()[k as int].1 == bucket as int,
                None => !cache_has(self.contents(), series_id as int, bucket as int),
            },
    {
        let mut k: usize = 0;
        while k < self.entries.len()
            invariant
                0 <= k <= self.entries@.len(),
                self.contents().len() == self.entries@.len(),
                forall|j: int| 0 <= j < k as int
                    ==> !((#[trigger] self.contents()[j]).0 == series_id as int
                        && self.contents()[j].1 == bucket as int),
            decreases self.entries@.len() - k,
        {
            if self.entries[k].series_id == series_id && self.entries[k].bucket == bucket {
                return Some(k);
            }
            k = k + 1;
        }
        None
    }

    /// True when a reduction for this series at this zoom level is cached.
    pub fn has_cached(&self, series_id: usize, visible_range: (i64, i64)) -> (r: bool)
        requires
            -0x8_0000_0000_0000 <= visible_range.0 <= 0x8_0000_0000_0000,
            -0x8_0000_0000_0000 <= visible_range.1 <= 0x8_0000_0000_0000,
        ensures
            r == cache_has(
                self.contents(),
                series_id as int,
                zoom_bucket_spec(visible_range.1 - visible_range.0),
            ),
    {
        let bucket = zoom_bucket(visible_range.1 - visible_range.0);
        self.find_entry(series_id, bucket).is_some()
    }

    /// Drop every cached entry (used when the data set is replaced).
    pub fn invalidate(&mut self)
        ensures
            final(self).contents().len() == 0,
            final(self).target() == old(self).target(),
            final(self).capacity() == old(self).capacity(),
            final(self).wf(),
    {
        self.entries = Vec::new();
        proof {
            assert(self.contents() =~= Seq::<(int, int, Seq<Point>)>::empty());
        }
    }

    /// Drop the cached entries of one series, keeping the others in order.
    pub fn invalidate_series(&mut self, series_id: usize)
        requires
            old(self).wf(),
        ensures
            final(self).contents() == old(self).contents().filter(
                not_series(series_id as int)),
            final(self).target() == old(self).target(),
            final(self).capacity() == old(self).capacity(),
            final(self).wf(),
    {
        let ghost pred = not_series(series_id as int);
        let mut kept: Vec<CacheEntry> = Vec::new();
        let mut k: usize = 0;
        proof {
            reveal(Seq::filter);
            assert(old(self).contents().take(0) =~= Seq::<(int, int, Seq<Point>)>::empty());
            assert(kept@.map_values(
                |e: CacheEntry| (e.series_id as int, e.bucket as int, e.points@))
                =~= Seq::<(int, int, Seq<Point>)>::empty());
        }
        while k < self.entries.len()
            invariant
                0 <= k <= self.entries@.len(),
                self == old(self),
                pred == not_series(series_id as int),
                kept@.map_values(
                    |e: CacheEntry| (e.series_id as int, e.bucket as int, e.points@))
                    == old(self).contents().take(k as int).filter(pred),
            decreases self.entries@.len() - k,
        {
            let ghost pre = old(self).contents().take(k as int);
            let ghost cur = old(self).contents()[k as int];
            if self.entries[k].series_id != series_id {
                kept.push(CacheEntry {
                    series_id: self.entries[k].series_id,
                    bucket: self.entries[k].bucket,
                    points: crate::downsample::copy_points(&self.entries[k].points),
                });
            }
            k = k + 1;
            proof {
                reveal(Seq::filter);
                assert(old(self).contents().take(k as int) =~= pre.push(cur));
                assert(pre.push(cur).drop_last() =~= pre);
                assert(pre.push(cur).last() == cur);
                if pred(cur) {
                    assert(kept@.map_values(
                        |e: CacheEntry| (e.series_id as int, e.bucket as int, e.points@))
                        =~= pre.filter(pred).push(cur));
                }
            }
        }
        self.entries = kept;
        proof {
            assert(old(self).contents().take(old(self).contents().len() as int)
                =~= old(self).contents());
            assert forall|k1: int, k2: int| 0 <= k1 < k2 < self.contents().len()
                implies !((#[trigger] self.contents()[k1]).0
                    == (#[trigger] self.contents()[k2]).0
                    && self.contents()[k1].1 == self.contents()[k2].1) by {
                lemma_filter_indices(old(self).contents(), pred, k1, k2);
            }
        }
    }

    /// Keep only the newer half of the entries when there are more than
    /// `max_entries` (bulk eviction of the oldest-inserted half).
    pub fn enforce_limit(&mut self, max_entries: usize)
        requires
            old(self).wf(),
        ensures
            old(self).contents().len() > max_entries ==> final(self).contents()
                == old(self).contents().skip(old(self).contents().len() as int / 2),
            old(self).contents().len() <= max_entries ==> final(self).contents()
                == old(self).contents(),
            final(self).target() == old(self).target(),
            final(self).capacity() == old(self).capacity(),
            final(self).wf(),
    {
        if self.entries.len() > max_entries {
            let half: usize = self.entries.len() / 2;
            let mut kept: Vec<CacheEntry> = Vec::new();
            let mut k: usize = half;
            while k < self.entries.len()
                invariant
                    half <= k <= self.entries@.len(),
                    self == old(self),
                    half == old(self).contents().len() as int / 2,
                    kept@.map_values(
                        |e: CacheEntry| (e.series_id as int, e.bucket as int, e.points@))
                        == old(self).contents().subrange(half as int, k as int),
                decreases self.entries@.len() - k,
            {
                let ghost pre = old(self).contents().subrange(half as int, k as int);
                kept.push(CacheEntry {
                    series_id: self.entries[k].series_id,
                    bucket: self.entries[k].bucket,
                    points: crate::downsample::copy_points(&self.entries[k].points),
                });
                k = k + 1;
                proof {
                    assert(old(self).contents().subrange(half as int, k as int)
                        =~= pre.push(old(self).contents()[k - 1]));
                    assert(kept@.map_values(
                        |e: CacheEntry| (e.series_id as int, e.bucket as int, e.points@))
                        =~= pre.push(old(self).contents()[k - 1]));
                }
            }
            self.entries = kept;
            proof {
                assert(old(self).contents().subrange(
                    half as int, old(self).contents().len() as int)
                    =~= old(self).contents().skip(old(self).contents().len() as int / 2));
            }
        }
    }

    /// Number of cached entries.
    pub fn len(&self) -> (r: usize)
        ensures
            r == self.contents().len(),
    {
        self.entries.len()
    }

    /// True when nothing is cached.
    pub fn is_empty(&self) -> (r: bool)
        ensures
            r == (self.contents().len() == 0),
    {
        self.entries.len() == 0
    }

    /// Cache statistics: entry count and (saturating) point and byte totals.
    pub fn stats(&self) -> (r: CacheStats)
        ensures
            r.entries == self.contents().len(),
            r.total_points == sat_point_count(self.contents()),
            r.estimated_bytes == if sat_point_count(self.contents()) * 16 > usize::MAX {
                usize::MAX as int
            } else {
                sat_point_count(self.contents()) * 16
            },
    {
        let mut total: usize = 0;
        let mut k: usize = 0;
        proof {
            assert(self.contents().take(0) =~= Seq::<(int, int, Seq<Point>)>::empty());
        }
        while k < self.entries.len()
            invariant
                0 <= k <= self.entries@.len(),
                self.contents().len() == self.entries@.len(),
                total == sat_point_count(self.contents().take(k as int)),
            decreases self.entries@.len() - k,
        {
            let ghost pre = self.contents().take(k as int);
            let n = self.entries[k].points.len();
            if total > usize::MAX - n {
                total = usize::MAX;
            } else {
                total = total + n;
            }
            k = k + 1;
            proof {
                assert(self.contents().take(k as int) =~= pre.push(self.contents()[k - 1]));
                assert(self.contents().take(k as int).drop_last() =~= pre);
            }
        }
        proof {
            assert(self.contents().take(self.contents().len() as int) =~= self.contents());
        }
        let bytes: usize = if total > usize::MAX / 16 {
            usize::MAX
        } else {
            total * 16
        };
        CacheStats { entries: self.entries.len(), total_points: total, estimated_bytes: bytes }
    }

    /// Cached reduction for this series at this zoom level, computing and
    /// storing it on a miss.
    ///
    /// On a hit the cache is unchanged and the stored points are returned;
    /// on a miss the closure is invoked once with the cache's target point
    /// count, its result is stored under `(series id, bucket)`, and the
    /// oldest-inserted half of the entries is evicted first if the cache is
    /// at capacity.
    pub fn get_or_compute<F: FnOnce(usize) -> Vec<Point>>(
        &mut self,
        series_id: usize,
        visible_range: (i64, i64),
        compute_fn: F,
    ) -> (r: Vec<Point>)
        requires
            old(self).wf(),
            -0x8_0000_0000_0000 <= visible_range.0 <= 0x8_0000_0000_0000,
            -0x8_0000_0000_0000 <= visible_range.1 <= 0x8_0000_0000_0000,
            call_requires(compute_fn, (old(self).target_usize(),)),
        ensures
            final(self).wf(),
            final(self).target() == old(self).target(),
            final(self).capacity() == old(self).capacity(),
            ({
                let bucket = zoom_bucket_spec(visible_range.1 - visible_range.0);
                let c0 = old(self).contents();
                &&& (cache_has(c0, series_id as int, bucket) ==> {
                    &&& final(self).contents() == c0
                    &&& forall|k: int| 0 <= k < c0.len()
                        && (#[trigger] c0[k]).0 == series_id as int && c0[k].1 == bucket
                        ==> r@ == c0[k].2
                })
                &&& (!cache_has(c0, series_id as int, bucket) ==> {
                    let kept = if c0.len() >= old(self).capacity() {
                        c0.skip(c0.len() as int / 2)
                    } else {
                        c0
                    };
                    &&& call_ensures(compute_fn, (old(self).target_usize(),), r)
                    &&& final(self).contents() == kept.push(
                        (series_id as int, bucket, r@))
                })
            }),
    {
        let width: i64 = visible_range.1 - visible_range.0;
        let bucket: i32 = zoom_bucket(width);
        match self.find_entry(series_id, bucket) {
            Some(k) => {
                let ghost c0 = self.contents();
                let r = crate::downsample::copy_points(&self.entries[k].points);
                proof {
                    assert(forall|j: int| 0 <= j < c0.len()
                        && (#[trigger] c0[j]).0 == series_id as int && c0[j].1 == bucket as int
                        ==> j == k as int);
                }
                r
            },
            None => {
                if self.entries.len() >= self.max_entries {
                    let cap = self.max_entries;
                    self.enforce_limit(if cap > 0 { cap - 1 } else { 0 });
                }
                let ghost kept = self.contents();
                let pts = compute_fn(self.target_points);
                let stored = crate::downsample::copy_points(&pts);
                self.entries.push(CacheEntry { series_id, bucket, points: stored });
                let r = pts;
                proof {
                    assert(self.contents() =~= kept.push(
                        (series_id as int, bucket as int, r@)));
                    assert forall|k1: int, k2: int| 0 <= k1 < k2 < self.contents().len()
                        implies !((#[trigger] self.contents()[k1]).0
                            == (#[trigger] self.contents()[k2]).0
                            && self.contents()[k1].1 == self.contents()[k2].1) by {
                        if k2 == self.contents().len() - 1 {
                            assert(!cache_has(old(self).contents(), series_id as int,
                                bucket as int));
                        }
                    }
                }
                r
            },
        }
    }
}

} // verus!
