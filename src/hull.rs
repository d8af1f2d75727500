use vstd::prelude::*;

use crate::error::GeometryError;
use crate::line::{angle_of, turn, Line2d, PseudoAngle};
use crate::point::{all_in_range, Point2d};

verus! {

broadcast use vstd::seq_lib::group_to_multiset_ensures;

/// Sites in non-decreasing order of `x`.
pub open spec fn sorted_by_x(g: Seq<Point2d>) -> bool {
    forall|p: int, q: int| 0 <= p < q < g.len() ==> g[p].x <= g[q].x
}

/// The segment from site `i` to site `j`.
pub open spec fn seg(g: Seq<Point2d>, i: int, j: int) -> Line2d {
    Line2d { src: g[i], dst: g[j] }
}

/// Counterclockwise turn from the reference direction to the direction from site `i`
/// to site `j`.
pub open spec fn turn_to(g: Seq<Point2d>, reference: Line2d, i: int, j: int) -> PseudoAngle {
    turn(angle_of(reference.dx(), reference.dy()), angle_of(seg(g, i, j).dx(), seg(g, i, j).dy()))
}

/// Among the sites `j < m` other than `i` and `prev`, the first with the smallest turn
/// from the reference direction; `-1` when there is none.
pub open spec fn best_upto(g: Seq<Point2d>, reference: Line2d, i: int, prev: int, m: int) -> int
    decreases m,
{
    if m <= 0 {
        -1
    } else {
        let b = best_upto(g, reference, i, prev, m - 1);
        let j = m - 1;
        if j == i || j == prev {
            b
        } else if b == -1 || turn_to(g, reference, i, j).lt(turn_to(g, reference, i, b)) {
            j
        } else {
            b
        }
    }
}

/// The line from the first site toward the origin that seeds the walk.
pub open spec fn seed_line(g: Seq<Point2d>) -> Line2d {
    Line2d { src: g[0], dst: Point2d { x: 0, y: 0 } }
}

/// State of the gift-wrapping walk after `t` steps: the current site, the previous
/// one, and the last edge taken (the seed line at first).
pub open spec fn walk(g: Seq<Point2d>, t: nat) -> (int, int, Line2d)
    decreases t,
{
    if t == 0 {
        (0, 0, seed_line(g))
    } else {
        let (cur, prev, reference) = walk(g, (t - 1) as nat);
        let next = best_upto(g, reference, cur, prev, g.len() as int);
        (next, cur, seg(g, cur, next))
    }
}

/// Sorts the sites by `x`, stably, by insertion.
fn sort_by_x(grid: &mut Vec<Point2d>)
    ensures
        final(grid)@.to_multiset() == old(grid)@.to_multiset(),
        final(grid)@.len() == old(grid)@.len(),
        sorted_by_x(final(grid)@),
{
    let n = grid.len();
    let ghost orig = grid@;
    let mut i: usize = 1;
    while i < n
        invariant
            n == grid@.len(),
            grid@.to_multiset() == orig.to_multiset(),
            1 <= i || n == 0,
            i <= n || n == 0,
            forall|p: int, q: int| 0 <= p < q < i && q < n ==> grid@[p].x <= grid@[q].x,
        decreases n - i,
    {
        let mut j: usize = i;
        while j > 0 && grid[j - 1].x > grid[j].x
            invariant
                n == grid@.len(),
                i < n,
                j <= i,
                grid@.to_multiset() == orig.to_multiset(),
                forall|p: int, q: int|
                    0 <= p < q <= i && p != j && q != j ==> grid@[p].x <= grid@[q].x,
                forall|q: int| j < q <= i ==> grid@[j as int].x < grid@[q].x,
            decreases j,
        {
            let a = grid[j - 1];
            let b = grid[j];
            let ghost s0 = grid@;
            grid.set(j - 1, b);
            let ghost s1 = grid@;
            grid.set(j, a);
            proof {
                vstd::seq_lib::to_multiset_update(s0, (j - 1) as int, b);
                vstd::seq_lib::to_multiset_update(s1, j as int, a);
                assert(s1.to_multiset() == s0.to_multiset().remove(a).insert(b));
                assert(grid@.to_multiset() == s1.to_multiset().remove(b).insert(a));
                assert(s0.to_multiset().contains(a)) by {
                    assert(s0[j - 1] == a);
                }
                assert(s0.to_multiset().remove(a).insert(b).remove(b).insert(a) =~= s0.to_multiset());
            }
            j = j - 1;
        }
        i = i + 1;
    }
}

/// The index of the next hull site from site `cur`, as `best_upto` over all sites.
fn best_candidate(grid: &Vec<Point2d>, reference: &Line2d, cur: usize, prev: usize) -> (r: usize)
    requires
        all_in_range(grid@),
        reference.in_range(),
        cur < grid@.len(),
        prev < grid@.len(),
        grid@.len() >= 3,
    ensures
        r as int == best_upto(grid@, *reference, cur as int, prev as int, grid@.len() as int),
        r < grid@.len(),
{
    let n = grid.len();
    let mut best: usize = 0;
    let mut found = false;
    let mut best_key = PseudoAngle { num: 0, den: 1 };
    let mut j: usize = 0;
    while j < n
        invariant
            n == grid@.len(),
            all_in_range(grid@),
            reference.in_range(),
            cur < n,
            j <= n,
            found ==> best as int == best_upto(grid@, *reference, cur as int, prev as int, j as int),
            found ==> best < n && best_key == turn_to(grid@, *reference, cur as int, best as int),
            found ==> best_key.wf(),
            !found ==> best_upto(grid@, *reference, cur as int, prev as int, j as int) == -1,
            !found ==> (j == 0 || (j == 1 && (cur == 0 || prev == 0)) || (j == 2 && ((cur == 0
                && prev == 1) || (cur == 1 && prev == 0)))),
        decreases n - j,
    {
        if j != cur && j != prev {
            proof {
                assert(grid@[cur as int].in_range());
                assert(grid@[j as int].in_range());
            }
            let key = reference.angle_between(&Line2d { src: grid[cur], dst: grid[j] });
            if !found || key.less_than(&best_key) {
                best = j;
                best_key = key;
                found = true;
            }
        }
        j = j + 1;
    }
    best
}

/// Convex hull by gift wrapping. The sites are first sorted by `x` in place; the walk
/// starts at the first of them with the line toward the origin as reference, and at
/// each step takes, among the other sites (the current and the previous one left
/// aside), the first with the smallest counterclockwise turn from the last edge. The
/// edges taken are returned once the walk is back at its start; a walk that has not
/// closed after as many steps as there are sites is degenerate.
pub fn compute_convex_hull(grid: &mut Vec<Point2d>) -> (r: Result<Vec<Line2d>, GeometryError>)
    requires
        all_in_range(old(grid)@),
    ensures
        final(grid)@.to_multiset() == old(grid)@.to_multiset(),
        old(grid)@.len() < 3 ==> r == Err::<Vec<Line2d>, GeometryError>(GeometryError::TooFewSites)
            && final(grid)@ == old(grid)@,
        old(grid)@.len() >= 3 ==> sorted_by_x(final(grid)@),
        old(grid)@.len() >= 3 ==> (r is Err <==> forall|t: nat|
            1 <= t <= final(grid)@.len() ==> (#[trigger] walk(final(grid)@, t)).0 != 0),
        old(grid)@.len() >= 3 ==> (r matches Err(e) ==> e == GeometryError::DegenerateGeometry),
        r matches Ok(hull) ==> {
            &&& 1 <= hull@.len() <= final(grid)@.len()
            &&& walk(final(grid)@, hull@.len()).0 == 0
            &&& forall|t: nat| 1 <= t < hull@.len() ==> (#[trigger] walk(final(grid)@, t)).0 != 0
            &&& forall|t: int|
                0 <= t < hull@.len() ==> #[trigger] hull@[t] == walk(final(grid)@, (t + 1) as nat).2
        },
{
    let n = grid.len();
    if n < 3 {
        return Err(GeometryError::TooFewSites);
    }
    let ghost orig = grid@;
    sort_by_x(grid);
    proof {
        assert forall|i: int| 0 <= i < grid@.len() implies #[trigger] grid@[i].in_range() by {
            assert(grid@.to_multiset().count(grid@[i]) > 0);
            assert(orig.to_multiset().count(grid@[i]) > 0);
            assert(orig.contains(grid@[i]));
        }
    }
    let mut reference = Line2d { src: grid[0], dst: Point2d { x: 0, y: 0 } };
    let mut cur: usize = 0;
    let mut prev: usize = 0;
    let mut hull: Vec<Line2d> = Vec::new();
    let mut steps: usize = 0;
    proof {
        assert(grid@[0].in_range());
    }
    while steps < n
        invariant
            n == grid@.len(),
            n >= 3,
            all_in_range(grid@),
            grid@.to_multiset() == orig.to_multiset(),
            orig == old(grid)@,
            orig.len() == n,
            sorted_by_x(grid@),
            steps <= n,
            hull@.len() == steps,
            cur < n,
            prev < n,
            reference.in_range(),
            walk(grid@, steps as nat) == (cur as int, prev as int, reference),
            forall|t: int| 0 <= t < steps ==> #[trigger] hull@[t] == walk(grid@, (t + 1) as nat).2,
            forall|t: nat| 1 <= t <= steps ==> (#[trigger] walk(grid@, t)).0 != 0,
        decreases n - steps,
    {
        let next = best_candidate(grid, &reference, cur, prev);
        proof {
            assert(grid@[cur as int].in_range());
            assert(grid@[next as int].in_range());
        }
        let edge = Line2d { src: grid[cur], dst: grid[next] };
        hull.push(edge);
        steps = steps + 1;
        prev = cur;
        cur = next;
        reference = edge;
        proof {
            assert(walk(grid@, steps as nat) == (cur as int, prev as int, reference));
        }
        if next == 0 {
            return Ok(hull);
        }
    }
    Err(GeometryError::DegenerateGeometry)
}

} // verus!
