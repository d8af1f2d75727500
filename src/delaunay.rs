use vstd::prelude::*;

use crate::circle::{circle_through, circumcircle, inside, orient, point_in_circle};
use crate::error::GeometryError;
use crate::neighbors::{
    increasing, lemma_increasing_unique, lemma_related_upto_contains, lemma_related_upto_ext,
    lemma_related_upto_increasing, near_2d, related_upto, NearestNeighborMap,
};
use crate::point::{all_in_range, Point2d};

verus! {

/// `j` and `k` are two distinct first-order neighbors of site `i`.
pub open spec fn candidate(sites: Seq<Point2d>, r_cutoff: int, i: int, j: int, k: int) -> bool {
    &&& 0 <= i < sites.len() && 0 <= j < sites.len() && 0 <= k < sites.len()
    &&& near_2d(sites, r_cutoff, i, j)
    &&& near_2d(sites, r_cutoff, i, k)
    &&& j != k
}

/// No site other than `i`, `j`, `k` lies strictly inside their circumcircle.
pub open spec fn empty_circle(sites: Seq<Point2d>, i: int, j: int, k: int) -> bool {
    forall|v: int|
        0 <= v < sites.len() && v != i && v != j && v != k ==> !inside(
            #[trigger] sites[v],
            circumcircle(sites[i], sites[j], sites[k]),
        )
}

/// A candidate triple in general position whose circumcircle is empty.
pub open spec fn accepted(sites: Seq<Point2d>, r_cutoff: int, i: int, j: int, k: int) -> bool {
    &&& candidate(sites, r_cutoff, i, j, k)
    &&& orient(sites[i], sites[j], sites[k]) != 0
    &&& empty_circle(sites, i, j, k)
}

/// Some candidate triple is collinear.
pub open spec fn has_collinear_candidate(sites: Seq<Point2d>, r_cutoff: int) -> bool {
    exists|i: int, j: int, k: int|
        #[trigger] candidate(sites, r_cutoff, i, j, k) && orient(sites[i], sites[j], sites[k]) == 0
}

/// An accepted triple `(i, j, k)` stores the edges `i -> j`, `i -> k` and `j -> k`.
pub open spec fn tri_edge(sites: Seq<Point2d>, r_cutoff: int, a: int, b: int) -> bool {
    exists|i: int, j: int, k: int|
        #[trigger] accepted(sites, r_cutoff, i, j, k) && ((a == i && (b == j || b == k)) || (a == j
            && b == k))
}

/// The triangulation edges leaving `a`, in increasing order.
pub open spec fn edges_from(sites: Seq<Point2d>, r_cutoff: int, a: int) -> Seq<usize> {
    related_upto(|x: int, y: int| tri_edge(sites, r_cutoff, x, y), a, sites.len() as int)
}

/// The sites `i` with an edge `i -> a`, in increasing order.
pub open spec fn edges_into(sites: Seq<Point2d>, r_cutoff: int, a: int) -> Seq<usize> {
    related_upto(|x: int, y: int| tri_edge(sites, r_cutoff, y, x), a, sites.len() as int)
}

/// Every edge of the triangulation comes from a triple of sites in general position
/// whose circumcircle holds no other site strictly inside.
pub proof fn lemma_edges_have_empty_circumcircles(sites: Seq<Point2d>, r_cutoff: int, a: int, b: usize)
    requires
        sites.len() <= usize::MAX,
        edges_from(sites, r_cutoff, a).contains(b),
    ensures
        exists|i: int, j: int, k: int|
            #[trigger] empty_circle(sites, i, j, k) && orient(sites[i], sites[j], sites[k]) != 0 && ((a
                == i && (b == j || b == k)) || (a == j && b == k)),
{
    lemma_related_upto_contains(
        |x: int, y: int| tri_edge(sites, r_cutoff, x, y),
        a,
        sites.len() as int,
        b,
    );
    let (i, j, k) = choose|i: int, j: int, k: int|
        #[trigger] accepted(sites, r_cutoff, i, j, k) && ((a == i && (b == j || b == k)) || (a == j && b
            == k));
    assert(empty_circle(sites, i, j, k));
}

/// What the triangle `(i, j, k)` asks of the edge lists built so far.
pub open spec fn triple_done(
    sites: Seq<Point2d>,
    r_cutoff: int,
    lines: Seq<Seq<usize>>,
    i: int,
    j: int,
    k: int,
) -> bool {
    candidate(sites, r_cutoff, i, j, k) ==> orient(sites[i], sites[j], sites[k]) != 0 && (
    empty_circle(sites, i, j, k) ==> lines[i].contains(j as usize) && lines[i].contains(k as usize)
        && lines[j].contains(k as usize))
}

/// Every listed edge is a triangulation edge, and each list is increasing.
pub open spec fn lines_sound(sites: Seq<Point2d>, r_cutoff: int, lines: Seq<Seq<usize>>) -> bool {
    &&& lines.len() == sites.len()
    &&& forall|a: int| 0 <= a < lines.len() ==> increasing(#[trigger] lines[a])
    &&& forall|a: int, b: usize|
        0 <= a < lines.len() && #[trigger] lines[a].contains(b) ==> b < sites.len() && tri_edge(
            sites,
            r_cutoff,
            a,
            b as int,
        )
}

/// Lists only grow.
pub open spec fn lines_grow(old: Seq<Seq<usize>>, new: Seq<Seq<usize>>) -> bool {
    old.len() == new.len() && forall|a: int, b: usize|
        0 <= a < old.len() && #[trigger] old[a].contains(b) ==> new[a].contains(b)
}

proof fn lemma_triple_done_grows(
    sites: Seq<Point2d>,
    r_cutoff: int,
    old: Seq<Seq<usize>>,
    new: Seq<Seq<usize>>,
    i: int,
    j: int,
    k: int,
)
    requires
        old.len() == sites.len(),
        lines_grow(old, new),
        triple_done(sites, r_cutoff, old, i, j, k),
    ensures
        triple_done(sites, r_cutoff, new, i, j, k),
{
    if candidate(sites, r_cutoff, i, j, k) && empty_circle(sites, i, j, k) {
        assert(old[i].contains(j as usize));
        assert(old[i].contains(k as usize));
        assert(old[j].contains(k as usize));
    }
}

/// Inserts `x` into the increasing list `v`, unless it is there already.
fn insert_sorted(v: &mut Vec<usize>, x: usize)
    requires
        increasing(old(v)@),
    ensures
        increasing(final(v)@),
        forall|y: usize| #[trigger] final(v)@.contains(y) <==> (old(v)@.contains(y) || y == x),
{
    let mut p: usize = 0;
    while p < v.len() && v[p] < x
        invariant
            p <= v@.len(),
            forall|q: int| 0 <= q < p ==> v@[q] < x,
        decreases v@.len() - p,
    {
        p = p + 1;
    }
    if p < v.len() && v[p] == x {
        assert(v@.contains(x));
        return ;
    }
    let ghost s = v@;
    v.insert(p, x);
    assert(v@ == s.insert(p as int, x));
    assert forall|a: int, b: int| 0 <= a < b < v@.len() implies v@[a] < v@[b] by {
        if p < s.len() {
            assert(s[p as int] > x);
        }
        if b > p as int && p < s.len() {
            assert(s[p as int] <= s[b - 1]);
        }
    }
    assert forall|y: usize| #[trigger] v@.contains(y) <==> (s.contains(y) || y == x) by {
        if v@.contains(y) {
            let q = choose|q: int| 0 <= q < v@.len() && v@[q] == y;
            if q < p {
                assert(s[q] == y);
            } else if q > p {
                assert(s[q - 1] == y);
            }
        }
        if s.contains(y) {
            let q = choose|q: int| 0 <= q < s.len() && s[q] == y;
            if q < p {
                assert(v@[q] == y);
            } else {
                assert(v@[q + 1] == y);
            }
        }
        assert(v@[p as int] == x);
    }
}

/// The lists as sequences.
pub open spec fn deep(v: Seq<Vec<usize>>) -> Seq<Seq<usize>> {
    v.map_values(|x: Vec<usize>| x@)
}

/// Every triple of site `i` whose first index is among `nb[..t]` was handled.
pub open spec fn done_rows(
    sites: Seq<Point2d>,
    r_cutoff: int,
    lines: Seq<Seq<usize>>,
    i: int,
    nb: Seq<usize>,
    t: int,
) -> bool {
    forall|t2: int, u2: int|
        0 <= t2 < t && 0 <= u2 < nb.len() ==> #[trigger] triple_done(
            sites,
            r_cutoff,
            lines,
            i,
            nb[t2] as int,
            nb[u2] as int,
        )
}

/// Every triple `(i, j, nb[u2])` with `u2 < u` was handled.
pub open spec fn done_cols(
    sites: Seq<Point2d>,
    r_cutoff: int,
    lines: Seq<Seq<usize>>,
    i: int,
    j: int,
    nb: Seq<usize>,
    u: int,
) -> bool {
    forall|u2: int| 0 <= u2 < u ==> #[trigger] triple_done(sites, r_cutoff, lines, i, j, nb[u2] as int)
}

/// Every triple whose first site is below `i` was handled.
pub open spec fn done_before(sites: Seq<Point2d>, r_cutoff: int, lines: Seq<Seq<usize>>, i: int) -> bool {
    forall|i2: int, j: int, k: int|
        0 <= i2 < i && 0 <= j < sites.len() && 0 <= k < sites.len() ==> #[trigger] triple_done(
            sites,
            r_cutoff,
            lines,
            i2,
            j,
            k,
        )
}

proof fn lemma_progress_grows(
    sites: Seq<Point2d>,
    r_cutoff: int,
    old: Seq<Seq<usize>>,
    new: Seq<Seq<usize>>,
    i: int,
    j: int,
    nb: Seq<usize>,
    t: int,
    u: int,
)
    requires
        old.len() == sites.len(),
        lines_grow(old, new),
        done_before(sites, r_cutoff, old, i),
        done_rows(sites, r_cutoff, old, i, nb, t),
        done_cols(sites, r_cutoff, old, i, j, nb, u),
        t <= nb.len(),
        u <= nb.len(),
    ensures
        done_before(sites, r_cutoff, new, i),
        done_rows(sites, r_cutoff, new, i, nb, t),
        done_cols(sites, r_cutoff, new, i, j, nb, u),
{
    assert forall|i2: int, j2: int, k2: int|
        0 <= i2 < i && 0 <= j2 < sites.len() && 0 <= k2 < sites.len() implies #[trigger] triple_done(
        sites,
        r_cutoff,
        new,
        i2,
        j2,
        k2,
    ) by {
        lemma_triple_done_grows(sites, r_cutoff, old, new, i2, j2, k2);
    }
    assert forall|t2: int, u2: int| 0 <= t2 < t && 0 <= u2 < nb.len() implies #[trigger] triple_done(
        sites,
        r_cutoff,
        new,
        i,
        nb[t2] as int,
        nb[u2] as int,
    ) by {
        lemma_triple_done_grows(sites, r_cutoff, old, new, i, nb[t2] as int, nb[u2] as int);
    }
    assert forall|u2: int| 0 <= u2 < u implies #[trigger] triple_done(
        sites,
        r_cutoff,
        new,
        i,
        j,
        nb[u2] as int,
    ) by {
        lemma_triple_done_grows(sites, r_cutoff, old, new, i, j, nb[u2] as int);
    }
}

/// Whether no site other than `i`, `j`, `k` lies strictly inside `c`.
fn circle_is_empty(sites: &[Point2d], c: &crate::circle::Circle, i: usize, j: usize, k: usize) -> (r:
    bool)
    requires
        all_in_range(sites@),
        c.bounded(),
    ensures
        r == forall|v: int|
            0 <= v < sites@.len() && v != i && v != j && v != k ==> !inside(#[trigger] sites@[v], *c),
{
    let mut v: usize = 0;
    while v < sites.len()
        invariant
            all_in_range(sites@),
            c.bounded(),
            v <= sites@.len(),
            forall|w: int|
                0 <= w < v && w != i && w != j && w != k ==> !inside(#[trigger] sites@[w], *c),
        decreases sites@.len() - v,
    {
        if v != i && v != j && v != k {
            assert(sites@[v as int].in_range());
            if point_in_circle(sites[v], c) {
                return false;
            }
        }
        v = v + 1;
    }
    true
}

/// For each site `a`, the sites `i` whose list holds `a`, in increasing order.
fn mirror_edges(lines: &Vec<Vec<usize>>) -> (r: Vec<Vec<usize>>)
    requires
        forall|a: int, b: usize|
            0 <= a < lines@.len() && #[trigger] lines@[a]@.contains(b) ==> b < lines@.len(),
        forall|a: int| 0 <= a < lines@.len() ==> increasing(#[trigger] lines@[a]@),
    ensures
        r@.len() == lines@.len(),
        forall|a: int|
            0 <= a < lines@.len() ==> #[trigger] r@[a]@ == related_upto(
                |x: int, y: int| lines@[y]@.contains(x as usize),
                a,
                lines@.len() as int,
            ),
{
    let ghost rel = |x: int, y: int| lines@[y]@.contains(x as usize);
    let n = lines.len();
    let mut m: Vec<Vec<usize>> = Vec::new();
    while m.len() < n
        invariant
            m@.len() <= n,
            forall|a: int| 0 <= a < m@.len() ==> #[trigger] m@[a]@ == Seq::<usize>::empty(),
        decreases n - m@.len(),
    {
        m.push(Vec::new());
    }
    let mut i: usize = 0;
    while i < n
        invariant
            n == lines@.len(),
            i <= n,
            m@.len() == n,
            rel == (|x: int, y: int| lines@[y]@.contains(x as usize)),
            forall|a: int, b: usize|
                0 <= a < lines@.len() && #[trigger] lines@[a]@.contains(b) ==> b < lines@.len(),
            forall|a: int| 0 <= a < lines@.len() ==> increasing(#[trigger] lines@[a]@),
            forall|a: int| 0 <= a < n ==> #[trigger] m@[a]@ == related_upto(rel, a, i as int),
        decreases n - i,
    {
        let row = &lines[i];
        let mut t: usize = 0;
        while t < row.len()
            invariant
                n == lines@.len(),
                i < n,
                m@.len() == n,
                row@ == lines@[i as int]@,
                t <= row@.len(),
                rel == (|x: int, y: int| lines@[y]@.contains(x as usize)),
                forall|a: int, b: usize|
                    0 <= a < lines@.len() && #[trigger] lines@[a]@.contains(b) ==> b < lines@.len(),
                increasing(row@),
                forall|a: int|
                    0 <= a < n ==> #[trigger] m@[a]@ == (if row@.take(t as int).contains(a as usize) {
                        related_upto(rel, a, i + 1)
                    } else {
                        related_upto(rel, a, i as int)
                    }),
            decreases row@.len() - t,
        {
            let b = row[t];
            assert(row@.contains(b));
            assert(!row@.take(t as int).contains(b)) by {
                if row@.take(t as int).contains(b) {
                    let q = choose|q: int| 0 <= q < t && #[trigger] row@.take(t as int)[q] == b;
                    assert(row@[q] < row@[t as int]);
                }
            }
            m[b].push(i);
            proof {
                assert forall|a: int| 0 <= a < n implies #[trigger] m@[a]@ == (if row@.take(t + 1).contains(
                    a as usize,
                ) {
                    related_upto(rel, a, i + 1)
                } else {
                    related_upto(rel, a, i as int)
                }) by {
                    assert(row@.take(t + 1) == row@.take(t as int).push(b));
                    if a == b as int {
                        assert(row@.take(t + 1)[t as int] == b);
                        assert(rel(a, i as int));
                    } else {
                        assert(row@.take(t + 1).contains(a as usize) == row@.take(t as int).contains(
                            a as usize,
                        )) by {
                            if row@.take(t + 1).contains(a as usize) {
                                let q = choose|q: int| 0 <= q < t + 1 && #[trigger] row@.take(t + 1)[q]
                                    == a as usize;
                                assert(row@.take(t as int)[q] == a as usize);
                            }
                            if row@.take(t as int).contains(a as usize) {
                                let q = choose|q: int| 0 <= q < t && #[trigger] row@.take(t as int)[q]
                                    == a as usize;
                                assert(row@.take(t + 1)[q] == a as usize);
                            }
                        }
                    }
                }
            }
            t = t + 1;
        }
        proof {
            assert(row@.take(row@.len() as int) == row@);
            assert forall|a: int| 0 <= a < n implies #[trigger] m@[a]@ == related_upto(
                rel,
                a,
                i + 1,
            ) by {
                if !row@.contains(a as usize) {
                    assert(!rel(a, i as int));
                }
            }
        }
        i = i + 1;
    }
    m
}

/// Approximate Delaunay triangulation. For each site `i` and each ordered pair `(j, k)`
/// of distinct first-order neighbors of `i` (closer than `r_cutoff`), the circle through
/// the three sites is computed; when no other site lies strictly inside it, the edges
/// `i -> j`, `i -> k` and `j -> k` are stored. Each list comes out increasing and without
/// repeats. With `bidirectional`, each list is followed by the sites that store an edge
/// to it.
pub fn dealunay_2d(sites: &[Point2d], r_cutoff: i64, bidirectional: bool) -> (r: Result<
    Vec<Vec<usize>>,
    GeometryError,
>)
    requires
        all_in_range(sites@),
    ensures
        sites@.len() < 3 ==> r == Err::<Vec<Vec<usize>>, GeometryError>(GeometryError::TooFewSites),
        sites@.len() >= 3 ==> (r is Err <==> has_collinear_candidate(sites@, r_cutoff as int)),
        sites@.len() >= 3 ==> (r matches Err(e) ==> e == GeometryError::DegenerateGeometry),
        r matches Ok(lines) ==> {
            &&& lines@.len() == sites@.len()
            &&& forall|a: int|
                0 <= a < sites@.len() ==> #[trigger] lines@[a]@ == (if bidirectional {
                    edges_from(sites@, r_cutoff as int, a) + edges_into(sites@, r_cutoff as int, a)
                } else {
                    edges_from(sites@, r_cutoff as int, a)
                })
        },
{
    let n = sites.len();
    if n < 3 {
        return Err(GeometryError::TooFewSites);
    }
    let ghost r = r_cutoff as int;
    let ghost rel = |x: int, y: int| near_2d(sites@, r_cutoff as int, x, y);
    let first = NearestNeighborMap::first_2d(sites, r_cutoff);
    let mut lines: Vec<Vec<usize>> = Vec::new();
    while lines.len() < n
        invariant
            lines@.len() <= n,
            forall|a: int| 0 <= a < lines@.len() ==> #[trigger] lines@[a]@ == Seq::<usize>::empty(),
        decreases n - lines@.len(),
    {
        lines.push(Vec::new());
    }
    proof {
        assert forall|a: int| 0 <= a < lines@.len() implies increasing(#[trigger] deep(lines@)[a]) by {}
    }
    let mut i: usize = 0;
    while i < n
        invariant
            n == sites@.len(),
            n <= usize::MAX,
            all_in_range(sites@),
            i <= n,
            r == r_cutoff as int,
            rel == (|x: int, y: int| near_2d(sites@, r_cutoff as int, x, y)),
            first.lists_are(n as int, rel),
            lines_sound(sites@, r, deep(lines@)),
            done_before(sites@, r, deep(lines@), i as int),
        decreases n - i,
    {
        let nb_i = &first.neighbors[i];
        assert(nb_i@ == related_upto(rel, i as int, n as int));
        let mut t: usize = 0;
        while t < nb_i.len()
            invariant
                n == sites@.len(),
                n <= usize::MAX,
                all_in_range(sites@),
                i < n,
                r == r_cutoff as int,
                rel == (|x: int, y: int| near_2d(sites@, r_cutoff as int, x, y)),
                nb_i@ == related_upto(rel, i as int, n as int),
                t <= nb_i@.len(),
                lines_sound(sites@, r, deep(lines@)),
                done_before(sites@, r, deep(lines@), i as int),
                done_rows(sites@, r, deep(lines@), i as int, nb_i@, t as int),
            decreases nb_i@.len() - t,
        {
            let j = nb_i[t];
            proof {
                lemma_related_upto_contains(rel, i as int, n as int, j);
                assert(nb_i@.contains(j));
            }
            let mut u: usize = 0;
            while u < nb_i.len()
                invariant
                    n == sites@.len(),
                    n <= usize::MAX,
                    all_in_range(sites@),
                    i < n,
                    j < n,
                    j == nb_i@[t as int],
                    near_2d(sites@, r, i as int, j as int),
                    r == r_cutoff as int,
                    rel == (|x: int, y: int| near_2d(sites@, r_cutoff as int, x, y)),
                    nb_i@ == related_upto(rel, i as int, n as int),
                    t < nb_i@.len(),
                    u <= nb_i@.len(),
                    lines_sound(sites@, r, deep(lines@)),
                    done_before(sites@, r, deep(lines@), i as int),
                    done_rows(sites@, r, deep(lines@), i as int, nb_i@, t as int),
                    done_cols(sites@, r, deep(lines@), i as int, j as int, nb_i@, u as int),
                decreases nb_i@.len() - u,
            {
                let k = nb_i[u];
                proof {
                    lemma_related_upto_contains(rel, i as int, n as int, k);
                    assert(nb_i@.contains(k));
                }
                if k != j {
                    proof {
                        assert(sites@[i as int].in_range());
                        assert(sites@[j as int].in_range());
                        assert(sites@[k as int].in_range());
                        assert(candidate(sites@, r, i as int, j as int, k as int));
                    }
                    match circle_through(sites[i], sites[j], sites[k]) {
                        Err(_) => {
                            proof {
                                assert(has_collinear_candidate(sites@, r));
                            }
                            return Err(GeometryError::DegenerateGeometry);
                        },
                        Ok(c) => {
                            let empty = circle_is_empty(sites, &c, i, j, k);
                            if empty {
                                let ghost old_lines = deep(lines@);
                                proof {
                                    assert(accepted(sites@, r, i as int, j as int, k as int));
                                    assert(tri_edge(sites@, r, i as int, j as int));
                                    assert(tri_edge(sites@, r, i as int, k as int));
                                    assert(tri_edge(sites@, r, j as int, k as int));
                                }
                                proof {
                                    assert(old_lines[i as int] == lines@[i as int]@);
                                    assert(increasing(old_lines[i as int]));
                                }
                                insert_sorted(&mut lines[i], j);
                                insert_sorted(&mut lines[i], k);
                                proof {
                                    assert(old_lines[j as int] == lines@[j as int]@);
                                    assert(increasing(old_lines[j as int]));
                                }
                                insert_sorted(&mut lines[j], k);
                                proof {
                                    let new_lines = deep(lines@);
                                    assert forall|a: int, b: usize|
                                        0 <= a < new_lines.len() && #[trigger] new_lines[a].contains(b)
                                        implies b < sites@.len() && tri_edge(sites@, r, a, b as int) by {
                                        if a != i as int && a != j as int {
                                            assert(new_lines[a] == old_lines[a]);
                                        }
                                        if a == j as int && b != k {
                                            assert(old_lines[a].contains(b));
                                        }
                                        if a == i as int && b != k && b != j {
                                            assert(old_lines[a].contains(b));
                                        }
                                    }
                                    assert forall|a: int| 0 <= a < new_lines.len() implies increasing(
                                        #[trigger] new_lines[a],
                                    ) by {
                                        if a != i as int && a != j as int {
                                            assert(new_lines[a] == old_lines[a]);
                                        }
                                    }
                                    assert(lines_sound(sites@, r, new_lines));
                                    assert(lines_grow(old_lines, new_lines));
                                    lemma_progress_grows(
                                        sites@,
                                        r,
                                        old_lines,
                                        new_lines,
                                        i as int,
                                        j as int,
                                        nb_i@,
                                        t as int,
                                        u as int,
                                    );
                                    assert(new_lines[i as int].contains(j));
                                    assert(new_lines[i as int].contains(k));
                                    assert(new_lines[j as int].contains(k));
                                }
                            }
                            proof {
                                assert(triple_done(sites@, r, deep(lines@), i as int, j as int, k as int));
                            }
                        },
                    }
                }
                proof {
                    assert(triple_done(sites@, r, deep(lines@), i as int, j as int, nb_i@[u as int] as int));
                }
                u = u + 1;
            }
            t = t + 1;
        }
        proof {
            let lv = deep(lines@);
            assert forall|i2: int, j2: int, k2: int|
                0 <= i2 < i + 1 && 0 <= j2 < n && 0 <= k2 < n implies #[trigger] triple_done(
                sites@,
                r,
                lv,
                i2,
                j2,
                k2,
            ) by {
                if i2 == i && candidate(sites@, r, i2, j2, k2) {
                    lemma_related_upto_contains(rel, i as int, n as int, j2 as usize);
                    lemma_related_upto_contains(rel, i as int, n as int, k2 as usize);
                    let t2 = choose|t2: int| 0 <= t2 < nb_i@.len() && #[trigger] nb_i@[t2] == j2 as usize;
                    let u2 = choose|u2: int| 0 <= u2 < nb_i@.len() && #[trigger] nb_i@[u2] == k2 as usize;
                    assert(triple_done(sites@, r, lv, i as int, nb_i@[t2] as int, nb_i@[u2] as int));
                }
            }
        }
        i = i + 1;
    }
    proof {
        let lv = deep(lines@);
        let erel = |x: int, y: int| tri_edge(sites@, r_cutoff as int, x, y);
        assert forall|a: int| 0 <= a < n implies #[trigger] lv[a] == edges_from(sites@, r, a) by {
            lemma_related_upto_increasing(erel, a, n as int);
            assert forall|b: usize| lv[a].contains(b) <==> edges_from(sites@, r, a).contains(b) by {
                lemma_related_upto_contains(erel, a, n as int, b);
                if b < n && tri_edge(sites@, r, a, b as int) {
                    let (i2, j2, k2) = choose|i2: int, j2: int, k2: int|
                        #[trigger] accepted(sites@, r, i2, j2, k2) && ((a == i2 && (b == j2 || b == k2))
                            || (a == j2 && b == k2));
                    assert(triple_done(sites@, r, lv, i2, j2, k2));
                }
            }
            lemma_increasing_unique(lv[a], edges_from(sites@, r, a));
        }
        assert(!has_collinear_candidate(sites@, r)) by {
            if has_collinear_candidate(sites@, r) {
                let (i2, j2, k2) = choose|i2: int, j2: int, k2: int|
                    #[trigger] candidate(sites@, r, i2, j2, k2) && orient(sites@[i2], sites@[j2], sites@[k2]) == 0;
                assert(triple_done(sites@, r, lv, i2, j2, k2));
            }
        }
    }
    proof {
        assert forall|b: int| 0 <= b < n implies #[trigger] lines@[b]@ == edges_from(sites@, r, b) by {
            assert(deep(lines@)[b] == lines@[b]@);
        }
    }
    if bidirectional {
        proof {
            let lv = deep(lines@);
            assert forall|a: int, b: usize|
                0 <= a < lines@.len() && #[trigger] lines@[a]@.contains(b) implies b < lines@.len() by {
                assert(lv[a] == lines@[a]@);
            }
            assert forall|a: int| 0 <= a < lines@.len() implies increasing(#[trigger] lines@[a]@) by {
                assert(lv[a] == lines@[a]@);
            }
        }
        let m = mirror_edges(&lines);
        proof {
            assert forall|b: int| 0 <= b < n implies #[trigger] m@[b]@ == related_upto(
                |x: int, y: int| edges_from(sites@, r, y).contains(x as usize),
                b,
                n as int,
            ) by {
                assert forall|y: int| 0 <= y < n implies #[trigger] lines@[y]@.contains(b as usize)
                    == edges_from(sites@, r, y).contains(b as usize) by {
                    assert(deep(lines@)[y] == lines@[y]@);
                }
                lemma_related_upto_ext(
                    |x: int, y: int| lines@[y]@.contains(x as usize),
                    |x: int, y: int| edges_from(sites@, r, y).contains(x as usize),
                    b,
                    n as int,
                );
            }
        }
        let mut a: usize = 0;
        while a < n
            invariant
                n == sites@.len(),
                a <= n,
                lines@.len() == n,
                m@.len() == n,
                forall|b: int| 0 <= b < n ==> #[trigger] m@[b]@ == related_upto(
                    |x: int, y: int| edges_from(sites@, r, y).contains(x as usize),
                    b,
                    n as int,
                ),
                forall|b: int| 0 <= b < a ==> #[trigger] lines@[b]@ == edges_from(sites@, r, b) + m@[b]@,
                forall|b: int| a <= b < n ==> #[trigger] lines@[b]@ == edges_from(sites@, r, b),
            decreases n - a,
        {
            let extra = &m[a];
            let mut t: usize = 0;
            while t < extra.len()
                invariant
                    n == sites@.len(),
                    a < n,
                    lines@.len() == n,
                    extra@ == m@[a as int]@,
                    t <= extra@.len(),
                    forall|b: int| 0 <= b < a ==> #[trigger] lines@[b]@ == edges_from(sites@, r, b) + m@[b]@,
                    forall|b: int| a < b < n ==> #[trigger] lines@[b]@ == edges_from(sites@, r, b),
                    lines@[a as int]@ == edges_from(sites@, r, a as int) + extra@.take(t as int),
                decreases extra@.len() - t,
            {
                let x = extra[t];
                lines[a].push(x);
                proof {
                    assert(extra@.take(t + 1) == extra@.take(t as int).push(x));
                }
                t = t + 1;
            }
            proof {
                assert(extra@.take(extra@.len() as int) == extra@);
            }
            a = a + 1;
        }
        proof {
            assert forall|b: int| 0 <= b < n implies #[trigger] m@[b]@ == edges_into(sites@, r, b) by {
                let erel = |x: int, y: int| tri_edge(sites@, r_cutoff as int, x, y);
                assert forall|y: int| 0 <= y < n implies #[trigger] edges_from(sites@, r, y).contains(
                    b as usize,
                ) == tri_edge(sites@, r, y, b) by {
                    lemma_related_upto_contains(erel, y, n as int, b as usize);
                }
                lemma_related_upto_ext(
                    |x: int, y: int| edges_from(sites@, r, y).contains(x as usize),
                    |x: int, y: int| tri_edge(sites@, r, y, x),
                    b,
                    n as int,
                );
            }
        }
    }
    Ok(lines)
}

/// Lexicographic order on index pairs.
pub open spec fn pair_lt(p: (usize, usize), q: (usize, usize)) -> bool {
    p.0 < q.0 || (p.0 == q.0 && p.1 < q.1)
}

/// The edges of a triangulation as `(i, j)` pairs, in lexicographic order, each once.
pub fn to_lines_2d(triangulation: &[Vec<usize>]) -> (r: Vec<(usize, usize)>)
    ensures
        forall|p: int, q: int| 0 <= p < q < r@.len() ==> pair_lt(r@[p], r@[q]),
        forall|e: (usize, usize)|
            #[trigger] r@.contains(e) <==> (e.0 < triangulation@.len() && triangulation@[e.0 as int]@.contains(
                e.1,
            )),
{
    let mut out: Vec<(usize, usize)> = Vec::new();
    let mut i: usize = 0;
    while i < triangulation.len()
        invariant
            i <= triangulation@.len(),
            forall|p: int, q: int| 0 <= p < q < out@.len() ==> pair_lt(out@[p], out@[q]),
            forall|p: int| 0 <= p < out@.len() ==> (#[trigger] out@[p]).0 < i,
            forall|e: (usize, usize)|
                #[trigger] out@.contains(e) <==> (e.0 < i && triangulation@[e.0 as int]@.contains(e.1)),
        decreases triangulation@.len() - i,
    {
        let others = &triangulation[i];
        let mut row: Vec<usize> = Vec::new();
        let mut t: usize = 0;
        while t < others.len()
            invariant
                t <= others@.len(),
                increasing(row@),
                forall|y: usize| #[trigger] row@.contains(y) <==> others@.take(t as int).contains(y),
            decreases others@.len() - t,
        {
            let y = others[t];
            insert_sorted(&mut row, y);
            proof {
                assert(others@.take(t + 1) == others@.take(t as int).push(y));
                assert forall|z: usize| #[trigger] row@.contains(z) <==> others@.take(t + 1).contains(z) by {
                    if others@.take(t as int).contains(z) {
                        let q = choose|q: int| 0 <= q < t && #[trigger] others@.take(t as int)[q] == z;
                        assert(others@.take(t + 1)[q] == z);
                    }
                    if others@.take(t + 1).contains(z) && z != y {
                        let q = choose|q: int| 0 <= q < t + 1 && #[trigger] others@.take(t + 1)[q] == z;
                        assert(others@.take(t as int)[q] == z);
                    }
                    assert(others@.take(t + 1)[t as int] == y);
                }
            }
            t = t + 1;
        }
        assert(others@.take(others@.len() as int) == others@);
        let ghost base = out@;
        let mut u: usize = 0;
        while u < row.len()
            invariant
                i < triangulation@.len(),
                others@ == triangulation@[i as int]@,
                u <= row@.len(),
                increasing(row@),
                forall|y: usize| #[trigger] row@.contains(y) <==> others@.contains(y),
                out@.len() == base.len() + u,
                forall|p: int| 0 <= p < base.len() ==> #[trigger] out@[p] == base[p],
                forall|p: int| 0 <= p < u ==> #[trigger] out@[base.len() + p] == (i, row@[p]),
                forall|p: int, q: int| 0 <= p < q < base.len() ==> pair_lt(base[p], base[q]),
                forall|p: int| 0 <= p < base.len() ==> (#[trigger] base[p]).0 < i,
                forall|e: (usize, usize)|
                    #[trigger] base.contains(e) <==> (e.0 < i && triangulation@[e.0 as int]@.contains(e.1)),
            decreases row@.len() - u,
        {
            out.push((i, row[u]));
            u = u + 1;
        }
        proof {
            assert forall|p: int| 0 <= p < out@.len() implies (#[trigger] out@[p]).0 < i + 1 by {
                if p >= base.len() {
                    assert(out@[base.len() + (p - base.len())] == (i, row@[p - base.len()]));
                } else {
                    assert(out@[p] == base[p]);
                }
            }
            assert forall|p: int, q: int| 0 <= p < q < out@.len() implies pair_lt(out@[p], out@[q]) by {
                if q >= base.len() {
                    assert(out@[base.len() + (q - base.len())] == (i, row@[q - base.len()]));
                } else {
                    assert(out@[q] == base[q]);
                }
                if p >= base.len() {
                    assert(out@[base.len() + (p - base.len())] == (i, row@[p - base.len()]));
                } else {
                    assert(out@[p] == base[p]);
                }
                if q >= base.len() && p >= base.len() {
                    assert(row@[p - base.len()] < row@[q - base.len()]);
                }
            }
            assert forall|e: (usize, usize)|
                #[trigger] out@.contains(e) <==> (e.0 < i + 1 && triangulation@[e.0 as int]@.contains(
                    e.1,
                )) by {
                if out@.contains(e) {
                    let p = choose|p: int| 0 <= p < out@.len() && #[trigger] out@[p] == e;
                    if p < base.len() {
                        assert(out@[p] == base[p]);
                        assert(base.contains(e));
                    } else {
                        assert(out@[base.len() + (p - base.len())] == (i, row@[p - base.len()]));
                        assert(row@.contains(row@[p - base.len()]));
                    }
                }
                if e.0 < i && triangulation@[e.0 as int]@.contains(e.1) {
                    assert(base.contains(e));
                    let p = choose|p: int| 0 <= p < base.len() && #[trigger] base[p] == e;
                    assert(out@[p] == e);
                }
                if e.0 == i && triangulation@[e.0 as int]@.contains(e.1) {
                    assert(row@.contains(e.1));
                    let p = choose|p: int| 0 <= p < row@.len() && #[trigger] row@[p] == e.1;
                    assert(out@[base.len() + p] == e);
                }
            }
        }
        i = i + 1;
    }
    out
}

} // verus!
