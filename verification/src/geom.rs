//! Integer geometry: axis-aligned boxes, query spheres, and the
//! sphere-versus-box intersection test the spatial index is searched with.
//!
//! Coordinates are fixed-point integers.  Bounding every coordinate and
//! radius by `COORD_LIMIT` keeps every squared distance inside `i128`.

use vstd::prelude::*;

verus! {

/// Largest magnitude a coordinate or radius may have (2^61).  With this
/// bound an axis distance is at most 2^62, its square at most 2^124, and a
/// sum of three squares at most 3 * 2^124, which is below `i128::MAX`.
pub const COORD_LIMIT: i64 = 0x2000_0000_0000_0000;

/// An axis-aligned bounding box given by its two extreme corners.
#[derive(Clone, Copy, Debug)]
pub struct Aabb {
    pub min: [i64; 3],
    pub max: [i64; 3],
}

/// A query sphere: observer position and view radius.
#[derive(Clone, Copy, Debug)]
pub struct Sphere {
    pub center: [i64; 3],
    pub radius: i64,
}

/// All three coordinates are within the fixed-point range.
pub open spec fn coord_ok(c: [i64; 3]) -> bool {
    forall|k: int| 0 <= k < 3 ==> -COORD_LIMIT <= #[trigger] c[k] <= COORD_LIMIT
}

impl Aabb {
    /// A box is well formed when its corners are in range and ordered.
    pub open spec fn wf(self) -> bool {
        &&& coord_ok(self.min)
        &&& coord_ok(self.max)
        &&& forall|k: int| 0 <= k < 3 ==> #[trigger] self.min[k] <= self.max[k]
    }

    /// `self` lies entirely inside `outer`.
    pub open spec fn inside(self, outer: Aabb) -> bool {
        forall|k: int|
            0 <= k < 3 ==> #[trigger] outer.min[k] <= self.min[k] && self.max[k] <= outer.max[k]
    }
}

impl Sphere {
    /// A sphere is well formed when its center is in range and its radius
    /// is nonnegative and in range.
    pub open spec fn wf(self) -> bool {
        &&& coord_ok(self.center)
        &&& 0 <= self.radius <= COORD_LIMIT
    }
}

/// Executable check of `Aabb::wf`.
pub fn check_aabb_wf(b: &Aabb) -> (r: bool)
    ensures
        r == b.wf(),
{
    let r = b.min[0] >= -COORD_LIMIT && b.min[0] <= COORD_LIMIT && b.min[1] >= -COORD_LIMIT
        && b.min[1] <= COORD_LIMIT && b.min[2] >= -COORD_LIMIT && b.min[2] <= COORD_LIMIT
        && b.max[0] >= -COORD_LIMIT && b.max[0] <= COORD_LIMIT && b.max[1] >= -COORD_LIMIT
        && b.max[1] <= COORD_LIMIT && b.max[2] >= -COORD_LIMIT && b.max[2] <= COORD_LIMIT
        && b.min[0] <= b.max[0] && b.min[1] <= b.max[1] && b.min[2] <= b.max[2];
    proof {
        if r {
            assert forall|k: int| 0 <= k < 3 implies -COORD_LIMIT <= #[trigger] b.min[k]
                <= COORD_LIMIT by {}
            assert forall|k: int| 0 <= k < 3 implies -COORD_LIMIT <= #[trigger] b.max[k]
                <= COORD_LIMIT by {}
            assert forall|k: int| 0 <= k < 3 implies #[trigger] b.min[k] <= b.max[k] by {}
        }
    }
    r
}

/// Executable check of `Sphere::wf`.
pub fn check_sphere_wf(s: &Sphere) -> (r: bool)
    ensures
        r == s.wf(),
{
    let r = s.center[0] >= -COORD_LIMIT && s.center[0] <= COORD_LIMIT && s.center[1] >= -COORD_LIMIT
        && s.center[1] <= COORD_LIMIT && s.center[2] >= -COORD_LIMIT && s.center[2] <= COORD_LIMIT
        && s.radius >= 0 && s.radius <= COORD_LIMIT;
    proof {
        if r {
            assert forall|k: int| 0 <= k < 3 implies -COORD_LIMIT <= #[trigger] s.center[k]
                <= COORD_LIMIT by {}
        }
    }
    r
}

/// `v` clamped into the interval `[lo, hi]`.
pub open spec fn clamp(v: int, lo: int, hi: int) -> int {
    if v < lo {
        lo
    } else if v > hi {
        hi
    } else {
        v
    }
}

/// Signed distance from `c` to the interval `[lo, hi]` along one axis.
pub open spec fn axis_dist(c: int, lo: int, hi: int) -> int {
    c - clamp(c, lo, hi)
}

pub open spec fn sq(x: int) -> int {
    x * x
}

/// Squared distance from a sphere's center to the closest point of a box.
pub open spec fn dist2(center: [i64; 3], b: Aabb) -> int {
    sq(axis_dist(center[0] as int, b.min[0] as int, b.max[0] as int))
        + sq(axis_dist(center[1] as int, b.min[1] as int, b.max[1] as int))
        + sq(axis_dist(center[2] as int, b.min[2] as int, b.max[2] as int))
}

/// The sphere and the box share at least one point.
pub open spec fn sphere_intersects_aabb(s: Sphere, b: Aabb) -> bool {
    dist2(s.center, b) <= sq(s.radius as int)
}

pub proof fn lemma_square_bound(a: int, m: int)
    requires
        -m <= a <= m,
        0 <= m,
    ensures
        0 <= a * a <= m * m,
{
    assert(0 <= a * a <= m * m) by (nonlinear_arith)
        requires
            -m <= a <= m,
            0 <= m,
    ;
}

proof fn lemma_sq_mono(x: int, y: int)
    requires
        0 <= x <= y,
    ensures
        x * x <= y * y,
{
    assert(x * x <= y * y) by (nonlinear_arith)
        requires
            0 <= x <= y,
    ;
}

/// Executable sphere-versus-box test, exactly the specification above.
pub fn intersects(s: &Sphere, b: &Aabb) -> (r: bool)
    requires
        s.wf(),
        b.wf(),
    ensures
        r == sphere_intersects_aabb(*s, *b),
{
    let mut total: i128 = 0;
    let mut k: usize = 0;
    proof {
        assert(sq(0x4000_0000_0000_0000) == 0x1000_0000_0000_0000_0000_0000_0000_0000int)
            by (nonlinear_arith);
    }
    while k < 3
        invariant
            s.wf(),
            b.wf(),
            0 <= k <= 3,
            total == partial_dist2(s.center, *b, k as int),
            0 <= total <= k * 0x1000_0000_0000_0000_0000_0000_0000_0000int,
        decreases 3 - k,
    {
        let c: i128 = s.center[k] as i128;
        let lo: i128 = b.min[k] as i128;
        let hi: i128 = b.max[k] as i128;
        let cl: i128 = if c < lo {
            lo
        } else if c > hi {
            hi
        } else {
            c
        };
        let d: i128 = c - cl;
        proof {
            lemma_square_bound(d as int, 0x4000_0000_0000_0000);
            assert(sq(0x4000_0000_0000_0000) == 0x1000_0000_0000_0000_0000_0000_0000_0000int)
                by (nonlinear_arith);
        }
        let d2: i128 = d * d;
        total = total + d2;
        k = k + 1;
    }
    let r: i128 = s.radius as i128;
    proof {
        lemma_square_bound(r as int, COORD_LIMIT as int);
        reveal_with_fuel(partial_dist2, 4);
        assert(partial_dist2(s.center, *b, 3) == dist2(s.center, *b));
    }
    total <= r * r
}

/// Sum of the first `k` axis contributions of `dist2`.
pub open spec fn partial_dist2(center: [i64; 3], b: Aabb, k: int) -> int
    decreases k,
{
    if k <= 0 {
        0
    } else {
        partial_dist2(center, b, k - 1) + sq(
            axis_dist(center[k - 1] as int, b.min[k - 1] as int, b.max[k - 1] as int),
        )
    }
}

/// Widening the radius around the same center keeps every intersected box
/// intersected.
pub proof fn lemma_intersect_radius_mono(s1: Sphere, s2: Sphere, b: Aabb)
    requires
        s1.wf(),
        s2.wf(),
        s1.center == s2.center,
        s1.radius <= s2.radius,
        sphere_intersects_aabb(s1, b),
    ensures
        sphere_intersects_aabb(s2, b),
{
    lemma_sq_mono(s1.radius as int, s2.radius as int);
}

proof fn lemma_axis_dist_mono(c: int, lo_i: int, hi_i: int, lo_o: int, hi_o: int)
    requires
        lo_o <= lo_i <= hi_i <= hi_o,
    ensures
        sq(axis_dist(c, lo_o, hi_o)) <= sq(axis_dist(c, lo_i, hi_i)),
{
    let di = axis_dist(c, lo_i, hi_i);
    let dq = axis_dist(c, lo_o, hi_o);
    if c < lo_o {
        lemma_sq_mono(-dq, -di);
        assert(sq(-dq) == sq(dq)) by (nonlinear_arith);
        assert(sq(-di) == sq(di)) by (nonlinear_arith);
    } else if c > hi_o {
        lemma_sq_mono(dq, di);
    } else {
        assert(dq == 0);
        assert(sq(di) >= 0) by (nonlinear_arith);
    }
}

/// A sphere meeting an inner box also meets every box that contains it.
pub proof fn lemma_intersect_box_mono(s: Sphere, inner: Aabb, outer: Aabb)
    requires
        inner.wf(),
        inner.inside(outer),
        sphere_intersects_aabb(s, inner),
    ensures
        sphere_intersects_aabb(s, outer),
{
    lemma_axis_dist_mono(
        s.center[0] as int,
        inner.min[0] as int,
        inner.max[0] as int,
        outer.min[0] as int,
        outer.max[0] as int,
    );
    lemma_axis_dist_mono(
        s.center[1] as int,
        inner.min[1] as int,
        inner.max[1] as int,
        outer.min[1] as int,
        outer.max[1] as int,
    );
    lemma_axis_dist_mono(
        s.center[2] as int,
        inner.min[2] as int,
        inner.max[2] as int,
        outer.min[2] as int,
        outer.max[2] as int,
    );
}

} // verus!
