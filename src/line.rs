use vstd::prelude::*;

use crate::point::{dist2, lemma_mul_bound, Point2d, RatPoint};

verus! {

/// A directed segment from `src` to `dst`.
#[derive(Clone, Copy, Debug, PartialEq, Eq, Structural)]
pub struct Line2d {
    pub src: Point2d,
    pub dst: Point2d,
}

/// The infinite line of the points `(x, y)` with `a * x + b * y == c`.
#[derive(Clone, Copy, Debug, PartialEq, Eq, Structural)]
pub struct LineEq {
    pub a: i128,
    pub b: i128,
    pub c: i128,
}

/// A rational stand-in for a polar angle: `num / den`, in `[0, 4)`, a strictly
/// increasing function of the angle in `[0, 2 pi)` (the "diamond angle").
#[derive(Clone, Copy, Debug, PartialEq, Eq, Structural)]
pub struct PseudoAngle {
    pub num: i128,
    pub den: i128,
}

/// The slope of a line: `rise / run` with `run > 0`, or vertical. A segment of zero
/// length counts as vertical.
#[derive(Clone, Copy, Debug, PartialEq, Eq, Structural)]
pub enum Slope {
    Finite { rise: i64, run: i64 },
    Vertical,
}

/// The slope `dy / dx` written with a positive run.
pub open spec fn slope_of(dx: int, dy: int) -> Slope {
    if dx == 0 {
        Slope::Vertical
    } else if dx > 0 {
        Slope::Finite { rise: dy as i64, run: dx as i64 }
    } else {
        Slope::Finite { rise: -dy as i64, run: -dx as i64 }
    }
}

/// Numerator and denominator of the diamond angle of direction `(dx, dy)`:
/// one unit per quadrant, the zero vector counted as the positive x direction.
pub open spec fn diamond(dx: int, dy: int) -> (int, int) {
    if dx == 0 && dy == 0 {
        (0, 1)
    } else if dy >= 0 && dx > 0 {
        (dy, dx + dy)
    } else if dx <= 0 && dy > 0 {
        (2 * (-dx) + dy, -dx + dy)
    } else if dy <= 0 && dx < 0 {
        (2 * (-dx - dy) + (-dy), -dx - dy)
    } else {
        (3 * (dx - dy) + dx, dx - dy)
    }
}

/// The diamond angle of a direction as a `PseudoAngle` value.
pub open spec fn angle_of(dx: int, dy: int) -> PseudoAngle {
    PseudoAngle { num: diamond(dx, dy).0 as i128, den: diamond(dx, dy).1 as i128 }
}

/// Counterclockwise turn from angle `a` to angle `b`, in `[0, 4)`.
pub open spec fn turn(a: PseudoAngle, b: PseudoAngle) -> PseudoAngle {
    let d = b.num * a.den - a.num * b.den;
    if d < 0 {
        PseudoAngle { num: (d + 4 * a.den * b.den) as i128, den: (a.den * b.den) as i128 }
    } else {
        PseudoAngle { num: d as i128, den: (a.den * b.den) as i128 }
    }
}

/// Two rational points name the same point of the plane.
pub open spec fn same_point(p: RatPoint, q: RatPoint) -> bool {
    p.x * q.w == q.x * p.w && p.y * q.w == q.y * p.w
}

/// A segment of non-zero length crosses its perpendicular bisector exactly at its
/// midpoint.
pub proof fn lemma_bisector_meets_at_midpoint(l: Line2d)
    requires
        l.in_range(),
        l.src != l.dst,
    ensures
        l.support().meet(l.bisector()) matches Some(p) && same_point(p, l.mid()),
{
    let (sx, sy, tx, ty) = (l.src.x as int, l.src.y as int, l.dst.x as int, l.dst.y as int);
    let (dx, dy) = (tx - sx, ty - sy);
    crate::point::lemma_sq_bound(dx, 0x1000);
    crate::point::lemma_sq_bound(dy, 0x1000);
    crate::point::lemma_sq_bound(sx, 0x800);
    crate::point::lemma_sq_bound(sy, 0x800);
    crate::point::lemma_sq_bound(tx, 0x800);
    crate::point::lemma_sq_bound(ty, 0x800);
    lemma_mul_bound(dy, sx, 0x1000, 0x800);
    lemma_mul_bound(dx, sy, 0x1000, 0x800);
    let e = l.support();
    let f = l.bisector();
    assert(e.a == dy && e.b == -dx && e.c == dy * sx - dx * sy);
    assert(f.a == 2 * dx && f.b == 2 * dy && f.c == tx * tx + ty * ty - sx * sx - sy * sy);
    let d = e.det(f);
    assert(d == 2 * (dx * dx + dy * dy)) by (nonlinear_arith)
        requires d == e.a * f.b - f.a * e.b, e.a == dy, e.b == -dx, f.a == 2 * dx, f.b == 2 * dy;
    assert(dx != 0 || dy != 0);
    assert(dx * dx + dy * dy > 0) by (nonlinear_arith)
        requires dx != 0 || dy != 0;
    let x = e.c * f.b - f.c * e.b;
    let y = e.a * f.c - f.a * e.c;
    assert(f.c == dx * (2 * sx + dx) + dy * (2 * sy + dy)) by (nonlinear_arith)
        requires f.c == tx * tx + ty * ty - sx * sx - sy * sy, dx == tx - sx, dy == ty - sy;
    lemma_bisector_identity(sx, sy, dx, dy);
    assert(x == (dy * sx - dx * sy) * (2 * dy) + (dx * (2 * sx + dx) + dy * (2 * sy + dy)) * dx)
        by (nonlinear_arith)
        requires x == e.c * f.b - f.c * e.b, e.c == dy * sx - dx * sy, f.b == 2 * dy, e.b == -dx,
            f.c == dx * (2 * sx + dx) + dy * (2 * sy + dy);
    let ff = dx * (2 * sx + dx) + dy * (2 * sy + dy);
    let (xx, yy, xy) = (dx * dx, dy * dy, dx * dy);
    assert(y == dy * ff - (2 * dx) * (dy * sx - dx * sy)) by (nonlinear_arith)
        requires y == e.a * f.c - f.a * e.c, e.c == dy * sx - dx * sy, e.a == dy, f.a == 2 * dx,
            f.c == ff;
    assert(dy * ff == 2 * sx * xy + dy * xx + 2 * sy * yy + dy * yy) by (nonlinear_arith)
        requires ff == dx * (2 * sx + dx) + dy * (2 * sy + dy), xx == dx * dx, yy == dy * dy,
            xy == dx * dy;
    assert((2 * dx) * (dy * sx - dx * sy) == 2 * sx * xy - 2 * sy * xx) by (nonlinear_arith)
        requires xx == dx * dx, xy == dx * dy;
    assert((2 * sy + dy) * (2 * (xx + yy)) == 2 * (2 * sy * xx + 2 * sy * yy + dy * xx + dy * yy))
        by (nonlinear_arith);
    assert(x * 2 == (2 * sx + dx) * d);
    assert(y * 2 == (2 * sy + dy) * d);
    lemma_mul_bound(e.c as int, f.b as int, 0x100_0000, 0x2000);
    lemma_mul_bound(f.c as int, e.b as int, 0x100_0000, 0x2000);
    lemma_mul_bound(e.a as int, f.c as int, 0x2000, 0x100_0000);
    lemma_mul_bound(f.a as int, e.c as int, 0x2000, 0x100_0000);
}

proof fn lemma_bisector_identity(sx: int, sy: int, dx: int, dy: int)
    ensures
        ((dy * sx - dx * sy) * (2 * dy) + (dx * (2 * sx + dx) + dy * (2 * sy + dy)) * dx) * 2
            == (2 * sx + dx) * (2 * (dx * dx + dy * dy)),
{
    let (xx, yy, xy) = (dx * dx, dy * dy, dx * dy);
    assert((dy * sx - dx * sy) * (2 * dy) == 2 * sx * yy - 2 * sy * xy) by (nonlinear_arith)
        requires yy == dy * dy, xy == dx * dy;
    assert((dx * (2 * sx + dx) + dy * (2 * sy + dy)) * dx == 2 * sx * xx + dx * xx + 2 * sy * xy
        + dx * yy) by (nonlinear_arith)
        requires xx == dx * dx, yy == dy * dy, xy == dx * dy;
    assert((2 * sx + dx) * (2 * (xx + yy)) == 2 * (2 * sx * xx + 2 * sx * yy + dx * xx + dx * yy))
        by (nonlinear_arith);
}

impl PseudoAngle {
    /// Positive denominator, value in `[0, 4)`, and small enough terms that
    /// two values compare exactly.
    pub open spec fn wf(self) -> bool {
        0 < self.den <= 0x1000_0000 && 0 <= self.num < 4 * self.den
    }

    pub open spec fn lt(self, that: PseudoAngle) -> bool {
        self.num * that.den < that.num * self.den
    }

    pub open spec fn le(self, that: PseudoAngle) -> bool {
        self.num * that.den <= that.num * self.den
    }

    /// Whether this angle is strictly smaller than `that`.
    pub fn less_than(&self, that: &PseudoAngle) -> (r: bool)
        requires
            self.wf(),
            that.wf(),
        ensures
            r == self.lt(*that),
    {
        proof {
            lemma_mul_bound(self.num as int, that.den as int, 0x4000_0000, 0x1000_0000);
            lemma_mul_bound(that.num as int, self.den as int, 0x4000_0000, 0x1000_0000);
        }
        self.num * that.den < that.num * self.den
    }
}

/// Comparisons of well-formed angles are transitive.
pub proof fn lemma_angle_order_trans(a: PseudoAngle, b: PseudoAngle, c: PseudoAngle)
    requires
        a.den > 0,
        b.den > 0,
        c.den > 0,
    ensures
        a.le(b) && b.le(c) ==> a.le(c),
        a.lt(b) && b.le(c) ==> a.lt(c),
        a.le(b) && b.lt(c) ==> a.lt(c),
        !a.lt(b) <==> b.le(a),
{
    let (an, ad, bn, bd, cn, cd) = (a.num as int, a.den as int, b.num as int, b.den as int, c.num as int, c.den as int);
    assert(an * bd <= bn * ad && bn * cd <= cn * bd ==> an * cd <= cn * ad) by (nonlinear_arith)
        requires ad > 0, bd > 0, cd > 0;
    assert(an * bd < bn * ad && bn * cd <= cn * bd ==> an * cd < cn * ad) by (nonlinear_arith)
        requires ad > 0, bd > 0, cd > 0;
    assert(an * bd <= bn * ad && bn * cd < cn * bd ==> an * cd < cn * ad) by (nonlinear_arith)
        requires ad > 0, bd > 0, cd > 0;
}

impl LineEq {
    /// Coefficients small enough for an exact intersection.
    pub open spec fn bounded(self) -> bool {
        -0x2000 <= self.a <= 0x2000 && -0x2000 <= self.b <= 0x2000 && -0x100_0000 <= self.c
            <= 0x100_0000
    }

    /// The rational point `p` lies on this line.
    pub open spec fn contains(self, p: RatPoint) -> bool {
        self.a * p.x + self.b * p.y == self.c * p.w
    }

    /// Determinant of the system formed by two lines: zero exactly when they are parallel
    /// or coincide.
    pub open spec fn det(self, that: LineEq) -> int {
        self.a * that.b - that.a * self.b
    }

    /// Where two non-parallel lines cross, by Cramer's rule, with a positive denominator.
    pub open spec fn meet(self, that: LineEq) -> Option<RatPoint> {
        let d = self.det(that);
        let x = self.c * that.b - that.c * self.b;
        let y = self.a * that.c - that.a * self.c;
        if d == 0 {
            None
        } else if d > 0 {
            Some(RatPoint { x: x as i128, y: y as i128, w: d as i128 })
        } else {
            Some(RatPoint { x: -x as i128, y: -y as i128, w: -d as i128 })
        }
    }

    /// The point where this line and `that` cross, or `None` when they are parallel
    /// or the same line.
    pub fn intersection(&self, that: &LineEq) -> (r: Option<RatPoint>)
        requires
            self.bounded(),
            that.bounded(),
        ensures
            r == self.meet(*that),
            r.is_none() <==> self.det(*that) == 0,
            r matches Some(p) ==> p.w > 0 && self.contains(p) && that.contains(p),
            r matches Some(p) ==> p.w <= 0x800_0000 && -0x40_0000_0000 <= p.x <= 0x40_0000_0000
                && -0x40_0000_0000 <= p.y <= 0x40_0000_0000,
    {
        proof {
            lemma_mul_bound(self.a as int, that.b as int, 0x2000, 0x2000);
            lemma_mul_bound(that.a as int, self.b as int, 0x2000, 0x2000);
            lemma_mul_bound(self.c as int, that.b as int, 0x100_0000, 0x2000);
            lemma_mul_bound(that.c as int, self.b as int, 0x100_0000, 0x2000);
            lemma_mul_bound(self.a as int, that.c as int, 0x2000, 0x100_0000);
            lemma_mul_bound(that.a as int, self.c as int, 0x2000, 0x100_0000);
        }
        let d = self.a * that.b - that.a * self.b;
        let x = self.c * that.b - that.c * self.b;
        let y = self.a * that.c - that.a * self.c;
        proof {
            let (a1, b1, c1, a2, b2, c2) = (self.a as int, self.b as int, self.c as int, that.a as int, that.b as int, that.c as int);
            assert(a1 * (c1 * b2 - c2 * b1) + b1 * (a1 * c2 - a2 * c1) == c1 * (a1 * b2 - a2 * b1)) by (nonlinear_arith);
            assert(a2 * (c1 * b2 - c2 * b1) + b2 * (a1 * c2 - a2 * c1) == c2 * (a1 * b2 - a2 * b1)) by (nonlinear_arith);
            assert(a1 * (-(c1 * b2 - c2 * b1)) + b1 * (-(a1 * c2 - a2 * c1)) == c1 * (-(a1 * b2 - a2 * b1))) by (nonlinear_arith);
            assert(a2 * (-(c1 * b2 - c2 * b1)) + b2 * (-(a1 * c2 - a2 * c1)) == c2 * (-(a1 * b2 - a2 * b1))) by (nonlinear_arith);
        }
        if d == 0 {
            None
        } else if d > 0 {
            Some(RatPoint { x, y, w: d })
        } else {
            Some(RatPoint { x: -x, y: -y, w: -d })
        }
    }
}

impl Line2d {
    pub open spec fn in_range(self) -> bool {
        self.src.in_range() && self.dst.in_range()
    }

    pub open spec fn dx(self) -> int {
        self.dst.x - self.src.x
    }

    pub open spec fn dy(self) -> int {
        self.dst.y - self.src.y
    }

    /// The midpoint, with denominator 2.
    pub open spec fn mid(self) -> RatPoint {
        RatPoint { x: (self.src.x + self.dst.x) as i128, y: (self.src.y + self.dst.y) as i128, w: 2 }
    }

    /// The infinite line through both endpoints.
    pub open spec fn support(self) -> LineEq {
        LineEq {
            a: self.dy() as i128,
            b: -self.dx() as i128,
            c: (self.dy() * self.src.x - self.dx() * self.src.y) as i128,
        }
    }

    /// The points equidistant from both endpoints: `2 d . p == |dst|^2 - |src|^2`
    /// where `d = dst - src`.
    pub open spec fn bisector(self) -> LineEq {
        LineEq {
            a: (2 * self.dx()) as i128,
            b: (2 * self.dy()) as i128,
            c: (self.dst.x * self.dst.x + self.dst.y * self.dst.y - self.src.x * self.src.x
                - self.src.y * self.src.y) as i128,
        }
    }

    /// The slope `(dst.y - src.y) / (dst.x - src.x)`.
    pub fn slope(&self) -> (r: Slope)
        requires
            self.in_range(),
        ensures
            r == slope_of(self.dx(), self.dy()),
    {
        let dx = self.dst.x - self.src.x;
        let dy = self.dst.y - self.src.y;
        if dx == 0 {
            Slope::Vertical
        } else if dx > 0 {
            Slope::Finite { rise: dy, run: dx }
        } else {
            Slope::Finite { rise: -dy, run: -dx }
        }
    }

    /// The slope of the lines orthogonal to this one, `-(dst.x - src.x) / (dst.y - src.y)`:
    /// vertical when this line is horizontal.
    pub fn orthogonal_slope(&self) -> (r: Slope)
        requires
            self.in_range(),
        ensures
            r == slope_of(self.dy(), -self.dx()),
    {
        let dx = self.dst.x - self.src.x;
        let dy = self.dst.y - self.src.y;
        if dy == 0 {
            Slope::Vertical
        } else if dy > 0 {
            Slope::Finite { rise: -dx, run: dy }
        } else {
            Slope::Finite { rise: dx, run: -dy }
        }
    }

    /// The midpoint of this segment.
    pub fn midpoint(&self) -> (r: RatPoint)
        requires
            self.in_range(),
        ensures
            r == self.mid(),
    {
        RatPoint {
            x: self.src.x as i128 + self.dst.x as i128,
            y: self.src.y as i128 + self.dst.y as i128,
            w: 2,
        }
    }

    /// The squared length of this segment.
    pub fn length_squared(&self) -> (r: i128)
        requires
            self.in_range(),
        ensures
            r == dist2(self.src, self.dst),
    {
        self.src.distance_squared_to(&self.dst)
    }

    /// The infinite line that carries this segment.
    pub fn line_eq(&self) -> (r: LineEq)
        requires
            self.in_range(),
        ensures
            r == self.support(),
            r.bounded(),
    {
        let dx = self.dst.x as i128 - self.src.x as i128;
        let dy = self.dst.y as i128 - self.src.y as i128;
        proof {
            lemma_mul_bound(dy as int, self.src.x as int, 0x1000, 0x800);
            lemma_mul_bound(dx as int, self.src.y as int, 0x1000, 0x800);
        }
        LineEq { a: dy, b: -dx, c: dy * self.src.x as i128 - dx * self.src.y as i128 }
    }

    /// The perpendicular bisector of this segment, as the infinite line it spans.
    pub fn perpendicular_bisector(&self) -> (r: LineEq)
        requires
            self.in_range(),
        ensures
            r == self.bisector(),
            r.bounded(),
    {
        let dx = self.dst.x as i128 - self.src.x as i128;
        let dy = self.dst.y as i128 - self.src.y as i128;
        proof {
            crate::point::lemma_sq_bound(self.src.x as int, 0x800);
            crate::point::lemma_sq_bound(self.src.y as int, 0x800);
            crate::point::lemma_sq_bound(self.dst.x as int, 0x800);
            crate::point::lemma_sq_bound(self.dst.y as int, 0x800);
        }
        let c = self.dst.magnitude_squared() - self.src.magnitude_squared();
        LineEq { a: 2 * dx, b: 2 * dy, c }
    }

    /// Where the lines carrying this segment and `that` cross, or `None` when they are
    /// parallel or the same line.
    pub fn intersection(&self, that: &Line2d) -> (r: Option<RatPoint>)
        requires
            self.in_range(),
            that.in_range(),
        ensures
            r == self.support().meet(that.support()),
            r.is_none() <==> self.support().det(that.support()) == 0,
    {
        let e = self.line_eq();
        let f = that.line_eq();
        e.intersection(&f)
    }

    /// The polar angle of this segment's direction, as a diamond angle.
    pub fn angle(&self) -> (r: PseudoAngle)
        requires
            self.in_range(),
        ensures
            r == angle_of(self.dx(), self.dy()),
            r.wf(),
            r.den <= 0x2000,
    {
        let dx = self.dst.x as i128 - self.src.x as i128;
        let dy = self.dst.y as i128 - self.src.y as i128;
        if dx == 0 && dy == 0 {
            PseudoAngle { num: 0, den: 1 }
        } else if dy >= 0 && dx > 0 {
            PseudoAngle { num: dy, den: dx + dy }
        } else if dx <= 0 && dy > 0 {
            PseudoAngle { num: 2 * (-dx) + dy, den: -dx + dy }
        } else if dy <= 0 && dx < 0 {
            PseudoAngle { num: 2 * (-dx - dy) + (-dy), den: -dx - dy }
        } else {
            PseudoAngle { num: 3 * (dx - dy) + dx, den: dx - dy }
        }
    }

    /// The counterclockwise turn from this segment's direction to that of `that`.
    pub fn angle_between(&self, that: &Line2d) -> (r: PseudoAngle)
        requires
            self.in_range(),
            that.in_range(),
        ensures
            r == turn(angle_of(self.dx(), self.dy()), angle_of(that.dx(), that.dy())),
            r.wf(),
    {
        let a = self.angle();
        let b = that.angle();
        proof {
            lemma_mul_bound(b.num as int, a.den as int, 0x8000, 0x2000);
            lemma_mul_bound(a.num as int, b.den as int, 0x8000, 0x2000);
            lemma_mul_bound(a.den as int, b.den as int, 0x2000, 0x2000);
            assert(a.den * b.den > 0) by (nonlinear_arith)
                requires a.den > 0, b.den > 0;
        }
        let d = b.num * a.den - a.num * b.den;
        let p = a.den * b.den;
        proof {
            assert(4 * a.den * b.den == 4 * p) by (nonlinear_arith)
                requires p == a.den * b.den;
            assert(d < 4 * p && d > -4 * p && p > 0) by (nonlinear_arith)
                requires d == b.num * a.den - a.num * b.den, 0 <= a.num < 4 * a.den,
                    0 <= b.num < 4 * b.den, a.den > 0, b.den > 0, p == a.den * b.den;
        }
        if d < 0 {
            PseudoAngle { num: d + 4 * p, den: p }
        } else {
            PseudoAngle { num: d, den: p }
        }
    }
}

} // verus!
