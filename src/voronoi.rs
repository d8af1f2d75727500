use vstd::prelude::*;

use crate::error::GeometryError;
use crate::line::{angle_of, lemma_angle_order_trans, Line2d, LineEq, PseudoAngle};
use crate::point::{all_in_range, lemma_mul_bound, lemma_sq_bound, Point2d, RatPoint, UNIT};

verus! {

broadcast use vstd::seq_lib::group_to_multiset_ensures;

/// Cell edges longer than this (two units of length) are dropped.
pub const MAX_CELL_EDGE: i64 = 2 * UNIT;

/// An edge of a Voronoi cell, between two rational points.
#[derive(Clone, Copy, Debug, PartialEq, Eq, Structural)]
pub struct CellEdge {
    pub src: RatPoint,
    pub dst: RatPoint,
}

/// The spoke from site `i` to site `j`.
pub open spec fn spoke(sites: Seq<Point2d>, i: int, j: int) -> Line2d {
    Line2d { src: sites[i], dst: sites[j] }
}

/// The polar angle of the spoke from site `i` to site `j`.
pub open spec fn spoke_angle(sites: Seq<Point2d>, i: int, j: int) -> PseudoAngle {
    angle_of(spoke(sites, i, j).dx(), spoke(sites, i, j).dy())
}

/// The spokes of site `i` toward `ord` come in non-decreasing angle.
pub open spec fn angle_sorted(sites: Seq<Point2d>, i: int, ord: Seq<usize>) -> bool {
    forall|p: int, q: int|
        0 <= p < q < ord.len() ==> spoke_angle(sites, i, ord[p] as int).le(
            spoke_angle(sites, i, ord[q] as int),
        )
}

/// The perpendicular bisector of the `t`-th spoke.
pub open spec fn bis_of(sites: Seq<Point2d>, i: int, ord: Seq<usize>, t: int) -> LineEq {
    spoke(sites, i, ord[t] as int).bisector()
}

/// Where the `t`-th bisector meets the next one, circularly.
pub open spec fn vert(sites: Seq<Point2d>, i: int, ord: Seq<usize>, t: int) -> Option<RatPoint> {
    bis_of(sites, i, ord, t).meet(bis_of(sites, i, ord, (t + 1) % (ord.len() as int)))
}

/// Every pair of consecutive bisectors crosses.
pub open spec fn cell_ok(sites: Seq<Point2d>, i: int, ord: Seq<usize>) -> bool {
    forall|t: int| 0 <= t < ord.len() ==> (#[trigger] vert(sites, i, ord, t)) is Some
}

/// The `t`-th bisector trimmed between its crossings with the previous and next ones.
pub open spec fn cell_edge(sites: Seq<Point2d>, i: int, ord: Seq<usize>, t: int) -> CellEdge {
    let m = ord.len() as int;
    CellEdge {
        src: vert(sites, i, ord, (t + m - 1) % m).unwrap(),
        dst: vert(sites, i, ord, t).unwrap(),
    }
}

/// The edge is longer than `MAX_CELL_EDGE`, compared exactly over the rationals.
pub open spec fn too_long(e: CellEdge) -> bool {
    let (p, q) = (e.src, e.dst);
    let dx = p.x * q.w - q.x * p.w;
    let dy = p.y * q.w - q.y * p.w;
    let lim = MAX_CELL_EDGE * p.w * q.w;
    dx * dx + dy * dy > lim * lim
}

/// The kept edges among the first `t` of the cell of site `i`.
pub open spec fn cell_upto(sites: Seq<Point2d>, i: int, ord: Seq<usize>, t: int) -> Seq<CellEdge>
    decreases t,
{
    if t <= 0 {
        Seq::empty()
    } else if too_long(cell_edge(sites, i, ord, t - 1)) {
        cell_upto(sites, i, ord, t - 1)
    } else {
        cell_upto(sites, i, ord, t - 1).push(cell_edge(sites, i, ord, t - 1))
    }
}

/// The kept edges of the cells of the first `k` sites, one cell after another.
pub open spec fn all_cells(sites: Seq<Point2d>, ords: Seq<Seq<usize>>, k: int) -> Seq<CellEdge>
    decreases k,
{
    if k <= 0 {
        Seq::empty()
    } else {
        all_cells(sites, ords, k - 1) + cell_upto(sites, k - 1, ords[k - 1], ords[k - 1].len() as int)
    }
}

/// Whether the edge is longer than `MAX_CELL_EDGE`.
fn edge_too_long(e: &CellEdge) -> (r: bool)
    requires
        0 < e.src.w <= 0x800_0000,
        0 < e.dst.w <= 0x800_0000,
        -0x40_0000_0000 <= e.src.x <= 0x40_0000_0000,
        -0x40_0000_0000 <= e.src.y <= 0x40_0000_0000,
        -0x40_0000_0000 <= e.dst.x <= 0x40_0000_0000,
        -0x40_0000_0000 <= e.dst.y <= 0x40_0000_0000,
    ensures
        r == too_long(*e),
{
    let (p, q) = (e.src, e.dst);
    proof {
        lemma_mul_bound(p.x as int, q.w as int, 0x40_0000_0000, 0x800_0000);
        lemma_mul_bound(q.x as int, p.w as int, 0x40_0000_0000, 0x800_0000);
        lemma_mul_bound(p.y as int, q.w as int, 0x40_0000_0000, 0x800_0000);
        lemma_mul_bound(q.y as int, p.w as int, 0x40_0000_0000, 0x800_0000);
        lemma_mul_bound(p.w as int, q.w as int, 0x800_0000, 0x800_0000);
        lemma_mul_bound(128, (p.w * q.w) as int, 128, 0x40_0000_0000_0000);
        assert(128 * p.w * q.w == 128 * (p.w * q.w)) by (nonlinear_arith);
        assert(p.w * q.w > 0) by (nonlinear_arith)
            requires p.w > 0, q.w > 0;
    }
    let dx = p.x * q.w - q.x * p.w;
    let dy = p.y * q.w - q.y * p.w;
    let lim = 128 * (p.w * q.w);
    if dx > lim || dx < -lim || dy > lim || dy < -lim {
        proof {
            let (a, b, l) = (dx as int, dy as int, lim as int);
            assert(a * a + b * b > l * l) by (nonlinear_arith)
                requires a > l || a < -l || b > l || b < -l, l > 0;
        }
        return true;
    }
    proof {
        lemma_sq_bound(dx as int, lim as int);
        lemma_sq_bound(dy as int, lim as int);
        lemma_sq_bound(lim as int, 0x2000_0000_0000_0000);
        assert((lim as int) * (lim as int) <= 0x2000_0000_0000_0000 * 0x2000_0000_0000_0000);
    }
    dx * dx + dy * dy > lim * lim
}

/// Sorts the neighbor indices of site `i` by the angle of their spokes, by insertion.
fn sort_spokes(sites: &[Point2d], i: usize, nbrs: &Vec<usize>) -> (r: Vec<usize>)
    requires
        all_in_range(sites@),
        i < sites@.len(),
        forall|t: int| 0 <= t < nbrs@.len() ==> #[trigger] nbrs@[t] < sites@.len(),
    ensures
        r@.to_multiset() == nbrs@.to_multiset(),
        angle_sorted(sites@, i as int, r@),
        forall|t: int| 0 <= t < r@.len() ==> #[trigger] r@[t] < sites@.len(),
{
    let n = nbrs.len();
    let mut ord: Vec<usize> = Vec::new();
    let mut keys: Vec<PseudoAngle> = Vec::new();
    let mut s: usize = 0;
    while s < n
        invariant
            all_in_range(sites@),
            i < sites@.len(),
            n == nbrs@.len(),
            forall|t: int| 0 <= t < nbrs@.len() ==> #[trigger] nbrs@[t] < sites@.len(),
            s <= n,
            ord@ == nbrs@.take(s as int),
            keys@.len() == s,
            forall|t: int| 0 <= t < s ==> #[trigger] keys@[t] == spoke_angle(sites@, i as int, ord@[t] as int),
            forall|t: int| 0 <= t < s ==> (#[trigger] keys@[t]).wf(),
        decreases n - s,
    {
        let j = nbrs[s];
        proof {
            assert(sites@[i as int].in_range());
            assert(sites@[j as int].in_range());
        }
        let k = Line2d { src: sites[i], dst: sites[j] }.angle();
        ord.push(j);
        keys.push(k);
        proof {
            assert(nbrs@.take(s + 1) == nbrs@.take(s as int).push(j));
        }
        s = s + 1;
    }
    assert(nbrs@.take(n as int) == nbrs@);
    let mut a: usize = 1;
    while a < n
        invariant
            n == ord@.len(),
            n == keys@.len(),
            all_in_range(sites@),
            forall|t: int| 0 <= t < n ==> #[trigger] ord@[t] < sites@.len(),
            ord@.to_multiset() == nbrs@.to_multiset(),
            forall|t: int| 0 <= t < n ==> #[trigger] keys@[t] == spoke_angle(sites@, i as int, ord@[t] as int),
            forall|t: int| 0 <= t < n ==> (#[trigger] keys@[t]).wf(),
            1 <= a || n == 0,
            forall|p: int, q: int| 0 <= p < q < a && q < n ==> keys@[p].le(keys@[q]),
        decreases n - a,
    {
        let mut b: usize = a;
        while b > 0 && keys[b].less_than(&keys[b - 1])
            invariant
                n == ord@.len(),
                n == keys@.len(),
                a < n,
                b <= a,
                all_in_range(sites@),
                forall|t: int| 0 <= t < n ==> #[trigger] ord@[t] < sites@.len(),
                ord@.to_multiset() == nbrs@.to_multiset(),
                forall|t: int| 0 <= t < n ==> #[trigger] keys@[t] == spoke_angle(sites@, i as int, ord@[t] as int),
                forall|t: int| 0 <= t < n ==> (#[trigger] keys@[t]).wf(),
                forall|p: int, q: int| 0 <= p < q <= a && p != b && q != b ==> keys@[p].le(keys@[q]),
                forall|q: int| b < q <= a ==> keys@[b as int].lt(keys@[q]),
            decreases b,
        {
            let (ka, kb) = (keys[b - 1], keys[b]);
            let (oa, ob) = (ord[b - 1], ord[b]);
            let ghost s0 = ord@;
            keys.set(b - 1, kb);
            keys.set(b, ka);
            ord.set(b - 1, ob);
            let ghost s1 = ord@;
            ord.set(b, oa);
            proof {
                vstd::seq_lib::to_multiset_update(s0, (b - 1) as int, ob);
                vstd::seq_lib::to_multiset_update(s1, b as int, oa);
                assert(s0.to_multiset().contains(oa)) by {
                    assert(s0[b - 1] == oa);
                }
                assert(s0.to_multiset().remove(oa).insert(ob).remove(ob).insert(oa) =~= s0.to_multiset());
                lemma_angle_order_trans(kb, ka, kb);
                assert(kb.lt(ka));
            }
            b = b - 1;
        }
        proof {
            if b > 0 {
                lemma_angle_order_trans(keys@[b as int], keys@[b - 1], keys@[b as int]);
            }
            assert forall|p: int, q: int| 0 <= p < q < a + 1 && q < n implies keys@[p].le(keys@[q]) by {
                if q == b as int && p < b - 1 {
                    lemma_angle_order_trans(keys@[p], keys@[b - 1], keys@[q]);
                }
                if p == b as int {
                    lemma_angle_order_trans(keys@[p], keys@[q], keys@[q]);
                }
            }
        }
        a = a + 1;
    }
    proof {
        assert forall|p: int, q: int| 0 <= p < q < ord@.len() implies spoke_angle(
            sites@,
            i as int,
            ord@[p] as int,
        ).le(spoke_angle(sites@, i as int, ord@[q] as int)) by {
            assert(keys@[p].le(keys@[q]));
        }
    }
    ord
}

/// `ord` lists the neighbors `nbrs` of site `i` (the same indices, as often) in
/// non-decreasing angle of their spokes.
pub open spec fn spoke_order(sites: Seq<Point2d>, nbrs: Seq<usize>, i: int, ord: Seq<usize>) -> bool {
    ord.to_multiset() == nbrs.to_multiset() && angle_sorted(sites, i, ord)
}

proof fn lemma_cyclic_indices(t: int, m: int)
    requires
        0 <= t < m,
    ensures
        (t + 1) % m == if t + 1 == m { 0 } else { t + 1 },
        (t + m - 1) % m == if t == 0 { m - 1 } else { t - 1 },
{
    if t + 1 == m {
        vstd::arithmetic::div_mod::lemma_mod_self_0(m);
    } else {
        vstd::arithmetic::div_mod::lemma_small_mod((t + 1) as nat, m as nat);
    }
    if t == 0 {
        vstd::arithmetic::div_mod::lemma_small_mod((m - 1) as nat, m as nat);
    } else {
        vstd::arithmetic::div_mod::lemma_mod_add_multiples_vanish(t - 1, m);
        vstd::arithmetic::div_mod::lemma_small_mod((t - 1) as nat, m as nat);
    }
}

/// Voronoi diagram from a triangulation. For each site, its spokes to its neighbors
/// are sorted by angle and replaced by their perpendicular bisectors; consecutive
/// bisectors (the last with the first) are crossed, and each bisector is trimmed to the
/// segment between its crossings with the previous and the next one. Edges longer
/// than `MAX_CELL_EDGE` are dropped; the others are emitted cell after cell. Two
/// consecutive bisectors that do not cross (parallel spokes, or a single spoke) make
/// the construction fail.
pub fn voronoi_701(sites: &[Point2d], delaunay: &[Vec<usize>]) -> (r: Result<Vec<CellEdge>, GeometryError>)
    requires
        all_in_range(sites@),
        delaunay@.len() >= sites@.len(),
        forall|i: int, t: int|
            0 <= i < sites@.len() && 0 <= t < delaunay@[i]@.len() ==> #[trigger] delaunay@[i]@[t]
                < sites@.len(),
    ensures
        r matches Ok(edges) ==> exists|ords: Seq<Seq<usize>>|
            #[trigger] all_cells(sites@, ords, sites@.len() as int) == edges@ && ords.len() == sites@.len()
                && forall|i: int|
                0 <= i < sites@.len() ==> spoke_order(sites@, delaunay@[i]@, i, #[trigger] ords[i])
                    && cell_ok(sites@, i, ords[i]),
        r matches Err(e) ==> e == GeometryError::DegenerateGeometry && exists|i: int, ord: Seq<usize>|
            0 <= i < sites@.len() && spoke_order(sites@, delaunay@[i]@, i, ord) && !#[trigger] cell_ok(
                sites@,
                i,
                ord,
            ),
{
    let n = sites.len();
    let mut ret: Vec<CellEdge> = Vec::new();
    let ghost mut ords: Seq<Seq<usize>> = Seq::empty();
    let mut i: usize = 0;
    while i < n
        invariant
            n == sites@.len(),
            all_in_range(sites@),
            delaunay@.len() >= sites@.len(),
            forall|a: int, t: int|
                0 <= a < sites@.len() && 0 <= t < delaunay@[a]@.len() ==> #[trigger] delaunay@[a]@[t]
                    < sites@.len(),
            i <= n,
            ords.len() == i,
            ret@ == all_cells(sites@, ords, i as int),
            forall|a: int|
                0 <= a < i ==> spoke_order(sites@, delaunay@[a]@, a, #[trigger] ords[a]) && cell_ok(
                    sites@,
                    a,
                    ords[a],
                ),
        decreases n - i,
    {
        let ord = sort_spokes(sites, i, &delaunay[i]);
        let m = ord.len();
        let mut verts: Vec<RatPoint> = Vec::new();
        let mut t: usize = 0;
        while t < m
            invariant
                n == sites@.len(),
                all_in_range(sites@),
                i < n,
                m == ord@.len(),
                forall|s: int| 0 <= s < m ==> #[trigger] ord@[s] < sites@.len(),
                t <= m,
                verts@.len() == t,
                forall|s: int| 0 <= s < t ==> Some(#[trigger] verts@[s]) == vert(sites@, i as int, ord@, s),
                forall|s: int| 0 <= s < t ==> (#[trigger] verts@[s]).w > 0 && verts@[s].w <= 0x800_0000
                    && -0x40_0000_0000 <= verts@[s].x <= 0x40_0000_0000 && -0x40_0000_0000 <= verts@[s].y
                    <= 0x40_0000_0000,
                delaunay@.len() >= sites@.len(),
                spoke_order(sites@, delaunay@[i as int]@, i as int, ord@),
            decreases m - t,
        {
            let k = if t + 1 == m { 0 } else { t + 1 };
            proof {
                lemma_cyclic_indices(t as int, m as int);
                assert(sites@[i as int].in_range());
                assert(sites@[ord@[t as int] as int].in_range());
                assert(sites@[ord@[k as int] as int].in_range());
            }
            let e1 = Line2d { src: sites[i], dst: sites[ord[t]] }.perpendicular_bisector();
            let e2 = Line2d { src: sites[i], dst: sites[ord[k]] }.perpendicular_bisector();
            match e1.intersection(&e2) {
                None => {
                    proof {
                        assert(vert(sites@, i as int, ord@, t as int) is None);
                        assert(!cell_ok(sites@, i as int, ord@));
                    }
                    return Err(GeometryError::DegenerateGeometry);
                },
                Some(p) => {
                    verts.push(p);
                },
            }
            t = t + 1;
        }
        let ghost base = ret@;
        let mut t: usize = 0;
        while t < m
            invariant
                m == ord@.len(),
                m == verts@.len(),
                t <= m,
                forall|s: int| 0 <= s < m ==> Some(#[trigger] verts@[s]) == vert(sites@, i as int, ord@, s),
                forall|s: int| 0 <= s < m ==> (#[trigger] verts@[s]).w > 0 && verts@[s].w <= 0x800_0000
                    && -0x40_0000_0000 <= verts@[s].x <= 0x40_0000_0000 && -0x40_0000_0000 <= verts@[s].y
                    <= 0x40_0000_0000,
                ret@ == base + cell_upto(sites@, i as int, ord@, t as int),
            decreases m - t,
        {
            let prev = if t == 0 { m - 1 } else { t - 1 };
            let e = CellEdge { src: verts[prev], dst: verts[t] };
            proof {
                lemma_cyclic_indices(t as int, m as int);
                assert(e == cell_edge(sites@, i as int, ord@, t as int));
            }
            if !edge_too_long(&e) {
                ret.push(e);
            }
            t = t + 1;
        }
        proof {
            assert forall|s: int| 0 <= s < m implies (#[trigger] vert(sites@, i as int, ord@, s)) is Some by {
                assert(Some(verts@[s]) == vert(sites@, i as int, ord@, s));
            }
            let old_ords = ords;
            ords = ords.push(ord@);
            assert(all_cells(sites@, old_ords, i as int) == all_cells(sites@, ords, i as int)) by {
                lemma_all_cells_prefix(sites@, old_ords, ords, i as int);
            }
            assert(ords[i as int] == ord@);
        }
        i = i + 1;
    }
    proof {
        assert(all_cells(sites@, ords, n as int) == ret@);
    }
    Ok(ret)
}

proof fn lemma_all_cells_prefix(sites: Seq<Point2d>, a: Seq<Seq<usize>>, b: Seq<Seq<usize>>, k: int)
    requires
        0 <= k <= a.len(),
        k <= b.len(),
        forall|t: int| 0 <= t < k ==> a[t] == b[t],
    ensures
        all_cells(sites, a, k) == all_cells(sites, b, k),
    decreases k,
{
    if k > 0 {
        lemma_all_cells_prefix(sites, a, b, k - 1);
    }
}

} // verus!
