use vstd::prelude::*;

use crate::error::GeometryError;
use crate::point::{lemma_mul_bound, lemma_sq_bound, Point2d, RatPoint};

verus! {

/// A circle with rational center; its squared radius is `r2 / (center.w * center.w)`.
#[derive(Clone, Copy, Debug, PartialEq, Eq, Structural)]
pub struct Circle {
    pub center: RatPoint,
    pub r2: i128,
}

/// Twice the signed area of the triangle `p1 p2 p3`: zero exactly when the points are
/// collinear, positive when they turn counterclockwise.
pub open spec fn orient(p1: Point2d, p2: Point2d, p3: Point2d) -> int {
    (p2.x - p1.x) * (p3.y - p1.y) - (p2.y - p1.y) * (p3.x - p1.x)
}

/// `w * w` times the squared distance from the site `q` to the rational point `c`.
pub open spec fn scaled_dist2(q: Point2d, c: RatPoint) -> int {
    (q.x * c.w - c.x) * (q.x * c.w - c.x) + (q.y * c.w - c.y) * (q.y * c.w - c.y)
}

/// Offset of the circumcenter from `p1`, before division by `2 * orient`.
pub open spec fn center_offset(p1: Point2d, p2: Point2d, p3: Point2d) -> (int, int) {
    let (bx, by) = (p2.x - p1.x, p2.y - p1.y);
    let (cx, cy) = (p3.x - p1.x, p3.y - p1.y);
    let (bb, cc) = (bx * bx + by * by, cx * cx + cy * cy);
    (cy * bb - by * cc, bx * cc - cx * bb)
}

/// The circle through three non-collinear sites: its center is `p1 + offset / (2 * orient)`,
/// written with a positive denominator.
pub open spec fn circumcircle(p1: Point2d, p2: Point2d, p3: Point2d) -> Circle {
    let d = 2 * orient(p1, p2, p3);
    let (ux, uy) = center_offset(p1, p2, p3);
    let (x, y) = (p1.x * d + ux, p1.y * d + uy);
    let center = if d < 0 {
        RatPoint { x: -x as i128, y: -y as i128, w: -d as i128 }
    } else {
        RatPoint { x: x as i128, y: y as i128, w: d as i128 }
    };
    Circle { center, r2: (ux * ux + uy * uy) as i128 }
}

/// The site `q` lies strictly inside the circle.
pub open spec fn inside(q: Point2d, c: Circle) -> bool {
    scaled_dist2(q, c.center) < c.r2
}

impl Circle {
    /// Terms small enough for the exact containment test.
    pub open spec fn bounded(self) -> bool {
        0 < self.center.w <= 0x400_0000 && -0x100_0000_0000 <= self.center.x <= 0x100_0000_0000
            && -0x100_0000_0000 <= self.center.y <= 0x100_0000_0000
    }
}

proof fn lemma_sign_flip(q: Point2d, x: int, y: int, d: int)
    ensures
        (q.x * -d - -x) * (q.x * -d - -x) == (q.x * d - x) * (q.x * d - x),
        (q.y * -d - -y) * (q.y * -d - -y) == (q.y * d - y) * (q.y * d - y),
{
    assert((q.x * -d - -x) * (q.x * -d - -x) == (q.x * d - x) * (q.x * d - x)) by (nonlinear_arith);
    assert((q.y * -d - -y) * (q.y * -d - -y) == (q.y * d - y) * (q.y * d - y)) by (nonlinear_arith);
}

proof fn lemma_square_expand(a: int, d: int, u: int)
    ensures
        (a * d - u) * (a * d - u) == (a * a) * (d * d) - 2 * d * (a * u) + u * u,
{
    assert((a * d - u) * (a * d - u) == (a * a) * (d * d) - 2 * d * (a * u) + u * u)
        by (nonlinear_arith);
}

proof fn lemma_dist_identity(px: int, py: int, d: int, ux: int, uy: int, a: int)
    requires
        d == 2 * a,
        px * ux + py * uy == (px * px + py * py) * a,
    ensures
        (px * d - ux) * (px * d - ux) + (py * d - uy) * (py * d - uy) == ux * ux + uy * uy,
{
    lemma_square_expand(px, d, ux);
    lemma_square_expand(py, d, uy);
    let (pxx, pyy, dd, pu, qu) = (px * px, py * py, d * d, px * ux, py * uy);
    assert(pxx * dd + pyy * dd == (pxx + pyy) * dd) by (nonlinear_arith);
    assert(2 * d * pu + 2 * d * qu == 2 * d * (pu + qu)) by (nonlinear_arith);
    assert((pxx + pyy) * dd == 2 * d * ((pxx + pyy) * a)) by (nonlinear_arith)
        requires d == 2 * a, dd == d * d;
}

proof fn lemma_equidistant(bx: int, by: int, cx: int, cy: int)
    ensures
        ({
            let d = 2 * (bx * cy - by * cx);
            let (bb, cc) = (bx * bx + by * by, cx * cx + cy * cy);
            let (ux, uy) = (cy * bb - by * cc, bx * cc - cx * bb);
            &&& (bx * d - ux) * (bx * d - ux) + (by * d - uy) * (by * d - uy) == ux * ux + uy * uy
            &&& (cx * d - ux) * (cx * d - ux) + (cy * d - uy) * (cy * d - uy) == ux * ux + uy * uy
        }),
{
    let a = bx * cy - by * cx;
    let (bb, cc) = (bx * bx + by * by, cx * cx + cy * cy);
    let (ux, uy) = (cy * bb - by * cc, bx * cc - cx * bb);
    assert(bx * ux + by * uy == bb * a) by (nonlinear_arith)
        requires ux == cy * bb - by * cc, uy == bx * cc - cx * bb, a == bx * cy - by * cx;
    assert(cx * ux + cy * uy == cc * a) by (nonlinear_arith)
        requires ux == cy * bb - by * cc, uy == bx * cc - cx * bb, a == bx * cy - by * cx;
    lemma_dist_identity(bx, by, 2 * a, ux, uy, a);
    lemma_dist_identity(cx, cy, 2 * a, ux, uy, a);
}

/// The circle through three points: `Err(DegenerateGeometry)` when they are collinear.
pub fn circle_through(p1: Point2d, p2: Point2d, p3: Point2d) -> (r: Result<Circle, GeometryError>)
    requires
        p1.in_range(),
        p2.in_range(),
        p3.in_range(),
    ensures
        r is Err <==> orient(p1, p2, p3) == 0,
        r matches Err(e) ==> e == GeometryError::DegenerateGeometry,
        r matches Ok(c) ==> {
            &&& c == circumcircle(p1, p2, p3)
            &&& c.bounded()
            &&& scaled_dist2(p1, c.center) == c.r2
            &&& scaled_dist2(p2, c.center) == c.r2
            &&& scaled_dist2(p3, c.center) == c.r2
        },
{
    let bx = p2.x as i128 - p1.x as i128;
    let by = p2.y as i128 - p1.y as i128;
    let cx = p3.x as i128 - p1.x as i128;
    let cy = p3.y as i128 - p1.y as i128;
    proof {
        lemma_sq_bound(bx as int, 0x1000);
        lemma_sq_bound(by as int, 0x1000);
        lemma_sq_bound(cx as int, 0x1000);
        lemma_sq_bound(cy as int, 0x1000);
        lemma_mul_bound(bx as int, cy as int, 0x1000, 0x1000);
        lemma_mul_bound(by as int, cx as int, 0x1000, 0x1000);
    }
    let area = bx * cy - by * cx;
    if area == 0 {
        return Err(GeometryError::DegenerateGeometry);
    }
    let d = 2 * area;
    let bb = bx * bx + by * by;
    let cc = cx * cx + cy * cy;
    proof {
        lemma_mul_bound(cy as int, bb as int, 0x1000, 0x200_0000);
        lemma_mul_bound(by as int, cc as int, 0x1000, 0x200_0000);
        lemma_mul_bound(bx as int, cc as int, 0x1000, 0x200_0000);
        lemma_mul_bound(cx as int, bb as int, 0x1000, 0x200_0000);
        lemma_mul_bound(p1.x as int, d as int, 0x800, 0x400_0000);
        lemma_mul_bound(p1.y as int, d as int, 0x800, 0x400_0000);
    }
    let ux = cy * bb - by * cc;
    let uy = bx * cc - cx * bb;
    proof {
        lemma_sq_bound(ux as int, 0x40_0000_0000);
        lemma_sq_bound(uy as int, 0x40_0000_0000);
    }
    let x = p1.x as i128 * d + ux;
    let y = p1.y as i128 * d + uy;
    let c = if d < 0 {
        Circle { center: RatPoint { x: -x, y: -y, w: -d }, r2: ux * ux + uy * uy }
    } else {
        Circle { center: RatPoint { x, y, w: d }, r2: ux * ux + uy * uy }
    };
    proof {
        let (b_x, b_y, c_x, c_y) = (bx as int, by as int, cx as int, cy as int);
        lemma_equidistant(b_x, b_y, c_x, c_y);
        let (x1, y1, x2, y2, x3, y3) = (p1.x as int, p1.y as int, p2.x as int, p2.y as int, p3.x as int, p3.y as int);
        let dd = d as int;
        assert(x1 * dd - x == -ux && y1 * dd - y == -uy);
        assert(x2 * dd - x == b_x * dd - ux) by (nonlinear_arith)
            requires x == x1 * dd + ux, b_x == x2 - x1;
        assert(y2 * dd - y == b_y * dd - uy) by (nonlinear_arith)
            requires y == y1 * dd + uy, b_y == y2 - y1;
        assert(x3 * dd - x == c_x * dd - ux) by (nonlinear_arith)
            requires x == x1 * dd + ux, c_x == x3 - x1;
        assert(y3 * dd - y == c_y * dd - uy) by (nonlinear_arith)
            requires y == y1 * dd + uy, c_y == y3 - y1;
        lemma_sign_flip(p1, x as int, y as int, dd);
        lemma_sign_flip(p2, x as int, y as int, dd);
        lemma_sign_flip(p3, x as int, y as int, dd);
        assert(dd == 2 * orient(p1, p2, p3));
        assert(center_offset(p1, p2, p3) == (ux as int, uy as int));
        let (u, v) = (ux as int, uy as int);
        assert((-u) * (-u) == u * u && (-v) * (-v) == v * v) by (nonlinear_arith);
        assert(scaled_dist2(p1, c.center) == c.r2);
        assert(scaled_dist2(p2, c.center) == c.r2);
        assert(scaled_dist2(p3, c.center) == c.r2);
    }
    Ok(c)
}

/// Whether `point` lies strictly inside `circle`.
pub fn point_in_circle(point: Point2d, circle: &Circle) -> (r: bool)
    requires
        point.in_range(),
        circle.bounded(),
    ensures
        r == inside(point, *circle),
{
    let c = circle.center;
    proof {
        lemma_mul_bound(point.x as int, c.w as int, 0x800, 0x400_0000);
        lemma_mul_bound(point.y as int, c.w as int, 0x800, 0x400_0000);
    }
    let dx = point.x as i128 * c.w - c.x;
    let dy = point.y as i128 * c.w - c.y;
    proof {
        lemma_sq_bound(dx as int, 0x200_0000_0000);
        lemma_sq_bound(dy as int, 0x200_0000_0000);
    }
    dx * dx + dy * dy < circle.r2
}

} // verus!
