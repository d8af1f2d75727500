use vstd::prelude::*;

verus! {

/// Fixed-point units per unit of length: a coordinate `x` stands for `x / UNIT`.
pub const UNIT: i64 = 64;

/// Largest absolute coordinate a site may have, so that every exact predicate
/// of the library fits in 128-bit arithmetic.
pub const COORD_LIMIT: i64 = 2048;

/// A site of the plane, in fixed-point integer coordinates.
#[derive(Clone, Copy, Debug, PartialEq, Eq, Structural)]
pub struct Point2d {
    pub x: i64,
    pub y: i64,
}

/// A site of space, in fixed-point integer coordinates.
#[derive(Clone, Copy, Debug, PartialEq, Eq, Structural)]
pub struct Point3d {
    pub x: i64,
    pub y: i64,
    pub z: i64,
}

/// A point with rational coordinates `(x / w, y / w)`, `w > 0`: what the
/// constructions (midpoints, intersections, circle centers) produce.
#[derive(Clone, Copy, Debug, PartialEq, Eq, Structural)]
pub struct RatPoint {
    pub x: i128,
    pub y: i128,
    pub w: i128,
}

pub open spec fn coord_ok(v: int) -> bool {
    -COORD_LIMIT <= v <= COORD_LIMIT
}

/// Squared Euclidean distance between two sites.
pub open spec fn dist2(a: Point2d, b: Point2d) -> int {
    (a.x - b.x) * (a.x - b.x) + (a.y - b.y) * (a.y - b.y)
}

/// Squared Euclidean distance between two sites of space.
pub open spec fn dist2_3d(a: Point3d, b: Point3d) -> int {
    (a.x - b.x) * (a.x - b.x) + (a.y - b.y) * (a.y - b.y) + (a.z - b.z) * (a.z - b.z)
}

/// Every site of the sequence has coordinates within the limit.
pub open spec fn all_in_range(s: Seq<Point2d>) -> bool {
    forall|i: int| 0 <= i < s.len() ==> #[trigger] s[i].in_range()
}

/// Every site of the sequence has coordinates within the limit.
pub open spec fn all_in_range_3d(s: Seq<Point3d>) -> bool {
    forall|i: int| 0 <= i < s.len() ==> #[trigger] s[i].in_range()
}

impl Point2d {
    pub open spec fn in_range(self) -> bool {
        coord_ok(self.x as int) && coord_ok(self.y as int)
    }

    /// The same site as a rational point.
    pub open spec fn as_rat(self) -> RatPoint {
        RatPoint { x: self.x as i128, y: self.y as i128, w: 1 }
    }

    /// Squared magnitude of this site seen as a vector from the origin.
    pub fn magnitude_squared(&self) -> (r: i128)
        requires
            self.in_range(),
        ensures
            r == self.x * self.x + self.y * self.y,
    {
        let x = self.x as i128;
        let y = self.y as i128;
        proof {
            lemma_sq_bound(x as int, 2048);
            lemma_sq_bound(y as int, 2048);
        }
        x * x + y * y
    }

    /// Squared distance from this site to `that`.
    pub fn distance_squared_to(&self, that: &Point2d) -> (r: i128)
        requires
            self.in_range(),
            that.in_range(),
        ensures
            r == dist2(*self, *that),
            r >= 0,
    {
        let dx = self.x as i128 - that.x as i128;
        let dy = self.y as i128 - that.y as i128;
        proof {
            lemma_sq_bound(dx as int, 4096);
            lemma_sq_bound(dy as int, 4096);
        }
        dx * dx + dy * dy
    }
}

impl Point3d {
    pub open spec fn in_range(self) -> bool {
        coord_ok(self.x as int) && coord_ok(self.y as int) && coord_ok(self.z as int)
    }

    /// Squared magnitude of this site seen as a vector from the origin.
    pub fn magnitude_squared(&self) -> (r: i128)
        requires
            self.in_range(),
        ensures
            r == self.x * self.x + self.y * self.y + self.z * self.z,
    {
        let x = self.x as i128;
        let y = self.y as i128;
        let z = self.z as i128;
        proof {
            lemma_sq_bound(x as int, 2048);
            lemma_sq_bound(y as int, 2048);
            lemma_sq_bound(z as int, 2048);
        }
        x * x + y * y + z * z
    }

    /// Squared distance from this site to `that`.
    pub fn distance_squared_to(&self, that: &Point3d) -> (r: i128)
        requires
            self.in_range(),
            that.in_range(),
        ensures
            r == dist2_3d(*self, *that),
            r >= 0,
    {
        let dx = self.x as i128 - that.x as i128;
        let dy = self.y as i128 - that.y as i128;
        let dz = self.z as i128 - that.z as i128;
        proof {
            lemma_sq_bound(dx as int, 4096);
            lemma_sq_bound(dy as int, 4096);
            lemma_sq_bound(dz as int, 4096);
        }
        dx * dx + dy * dy + dz * dz
    }
}

/// Distance does not depend on the order of the two sites.
pub proof fn lemma_dist2_symmetric(a: Point2d, b: Point2d)
    ensures
        dist2(a, b) == dist2(b, a),
        dist2(a, b) >= 0,
{
    assert(dist2(a, b) == dist2(b, a) && dist2(a, b) >= 0) by (nonlinear_arith);
}

/// Distance in space does not depend on the order of the two sites.
pub proof fn lemma_dist2_3d_symmetric(a: Point3d, b: Point3d)
    ensures
        dist2_3d(a, b) == dist2_3d(b, a),
        dist2_3d(a, b) >= 0,
{
    assert(dist2_3d(a, b) == dist2_3d(b, a) && dist2_3d(a, b) >= 0) by (nonlinear_arith);
}

/// A square is non-negative and bounded by the square of any bound on the value.
pub proof fn lemma_sq_bound(v: int, b: int)
    requires
        -b <= v <= b,
    ensures
        0 <= v * v <= b * b,
{
    assert(0 <= v * v <= b * b) by (nonlinear_arith)
        requires
            -b <= v <= b,
    ;
}

/// A product is bounded by the product of bounds on its factors.
pub proof fn lemma_mul_bound(a: int, b: int, ba: int, bb: int)
    requires
        -ba <= a <= ba,
        -bb <= b <= bb,
    ensures
        -(ba * bb) <= a * b <= ba * bb,
{
    assert(-(ba * bb) <= a * b <= ba * bb) by (nonlinear_arith)
        requires
            -ba <= a <= ba,
            -bb <= b <= bb,
    ;
}

} // verus!
