//! Rendering-path helpers: visible-range culling and a reusable point
//! buffer.

use vstd::prelude::*;
use crate::downsample::Point;

verus! {

/// Cull margin kept on each side of the visible range for smooth panning.
pub const CULL_MARGIN: usize = 10;

/// `s` splits `data` into the points strictly below `x_min` and the rest.
pub open spec fn lower_split_at(data: Seq<Point>, x_min: i64, s: int) -> bool {
    0 <= s <= data.len() && (forall|i: int| 0 <= i < s ==> (#[trigger] data[i]).x < x_min)
        && (forall|i: int| s <= i < data.len() ==> (#[trigger] data[i]).x >= x_min)
}

/// `e` splits `data` into the points at or below `x_max` and the rest.
pub open spec fn upper_split_at(data: Seq<Point>, x_max: i64, e: int) -> bool {
    0 <= e <= data.len() && (forall|i: int| 0 <= i < e ==> (#[trigger] data[i]).x <= x_max)
        && (forall|i: int| e <= i < data.len() ==> (#[trigger] data[i]).x > x_max)
}

/// Half-open index range `[start, end)` of the points to draw for a
/// visible x-range, over data sorted by x: the points inside
/// `[x_min, x_max]` plus up to [`CULL_MARGIN`] extra points on each side.
pub fn cull_points(data: &Vec<Point>, x_min: i64, x_max: i64) -> (r: (usize, usize))
    requires
        x_min <= x_max,
        forall|i: int, j: int| 0 <= i <= j < data@.len()
            ==> (#[trigger] data@[i]).x <= (#[trigger] data@[j]).x,
    ensures
        r.0 <= r.1 <= data@.len(),
        forall|i: int| 0 <= i < data@.len() && x_min <= (#[trigger] data@[i]).x
            && data@[i].x <= x_max ==> r.0 <= i < r.1,
        exists|s: int| #[trigger] lower_split_at(data@, x_min, s) && r.0 == (if s
            >= CULL_MARGIN as int {
            s - CULL_MARGIN
        } else {
            0int
        }),
        exists|e: int| #[trigger] upper_split_at(data@, x_max, e) && r.1 == (if e
            + CULL_MARGIN as int <= data@.len() {
            e + CULL_MARGIN as int
        } else {
            data@.len() as int
        }),
{
    if data.len() == 0 {
        proof {
            assert(lower_split_at(data@, x_min, 0));
            assert(upper_split_at(data@, x_max, 0));
        }
        return (0, 0);
    }
    let mut s: usize = 0;
    while s < data.len() && data[s].x < x_min
        invariant
            0 <= s <= data@.len(),
            forall|i: int| 0 <= i < s as int ==> (#[trigger] data@[i]).x < x_min,
            forall|i: int, j: int| 0 <= i <= j < data@.len()
                ==> (#[trigger] data@[i]).x <= (#[trigger] data@[j]).x,
        decreases data@.len() - s,
    {
        s = s + 1;
    }
    let mut e: usize = s;
    while e < data.len() && data[e].x <= x_max
        invariant
            s <= e <= data@.len(),
            forall|i: int| 0 <= i < s as int ==> (#[trigger] data@[i]).x < x_min,
            forall|i: int| s as int <= i < e as int ==> (#[trigger] data@[i]).x <= x_max,
            forall|i: int, j: int| 0 <= i <= j < data@.len()
                ==> (#[trigger] data@[i]).x <= (#[trigger] data@[j]).x,
        decreases data@.len() - e,
    {
        e = e + 1;
    }
    let start: usize = if s >= CULL_MARGIN {
        s - CULL_MARGIN
    } else {
        0
    };
    let end: usize = if data.len() >= CULL_MARGIN && e <= data.len() - CULL_MARGIN {
        e + CULL_MARGIN
    } else {
        data.len()
    };
    proof {
        assert(forall|i: int| 0 <= i < e as int ==> (#[trigger] data@[i]).x <= x_max);
        assert forall|i: int| e as int <= i < data@.len() implies (#[trigger] data@[i]).x
            > x_max by {
            if e < data@.len() {
                assert(data@[e as int].x <= data@[i].x);
            }
        }
        assert forall|i: int| s as int <= i < data@.len() implies (#[trigger] data@[i]).x
            >= x_min by {
            if s < data@.len() {
                assert(data@[s as int].x <= data@[i].x);
            }
        }
        assert(lower_split_at(data@, x_min, s as int));
        assert(upper_split_at(data@, x_max, e as int));
    }
    (start, end)
}

/// Reusable point buffer, refilled each frame to avoid reallocation.
pub struct PlotBuffer {
    pub points: Vec<Point>,
}

impl PlotBuffer {
    pub fn new() -> (r: Self)
        ensures
            r.points@.len() == 0,
    {
        PlotBuffer { points: Vec::new() }
    }

    /// Replace the buffer contents with a copy of `source`.
    pub fn fill_from(&mut self, source: &Vec<Point>)
        ensures
            final(self).points@ == source@,
    {
        self.points = crate::downsample::copy_points(source);
    }

    /// Empty the buffer.
    pub fn clear(&mut self)
        ensures
            final(self).points@.len() == 0,
    {
        self.points = Vec::new();
    }
}

} // verus!
