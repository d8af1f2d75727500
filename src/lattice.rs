use vstd::prelude::*;

verus! {

/// A square lattice of `box_len` by `box_len` sites, each occupied or not.
pub struct Lattice {
    pub grid: Vec<Vec<bool>>,
    pub box_len: usize,
}

/// Groups of occupied lattice sites, as `(row, column)` pairs.
pub struct Clusters {
    pub clusters: Vec<Vec<(usize, usize)>>,
}

/// A site inside an `n` by `n` lattice.
pub open spec fn in_box(s: (usize, usize), n: usize) -> bool {
    s.0 < n && s.1 < n
}

/// Two sites share a side.
pub open spec fn adjacent(a: (usize, usize), b: (usize, usize)) -> bool {
    (a.0 == b.0 && (a.1 + 1 == b.1 || b.1 + 1 == a.1)) || (a.1 == b.1 && (a.0 + 1 == b.0 || b.0 + 1
        == a.0))
}

/// Deep view of a list of clusters.
pub open spec fn deep(cs: Seq<Vec<(usize, usize)>>) -> Seq<Seq<(usize, usize)>> {
    cs.map_values(|c: Vec<(usize, usize)>| c@)
}

/// No site appears twice among the clusters.
pub open spec fn distinct_sites(cl: Seq<Seq<(usize, usize)>>) -> bool {
    forall|c1: int, p1: int, c2: int, p2: int|
        0 <= c1 < cl.len() && 0 <= c2 < cl.len() && 0 <= p1 < cl[c1].len() && 0 <= p2 < cl[c2].len()
            && #[trigger] cl[c1][p1] == #[trigger] cl[c2][p2] ==> c1 == c2 && p1 == p2
}

/// Removing the element at `p` by swapping in the last one: the other elements stay.
proof fn lemma_swap_remove(w: Seq<(usize, usize)>, p: int)
    requires
        0 <= p < w.len(),
        w.no_duplicates(),
    ensures
        w.update(p, w.last()).drop_last().no_duplicates(),
        forall|s: (usize, usize)| #[trigger] w.update(p, w.last()).drop_last().contains(s) <==> (w.contains(s)
            && s != w[p]),
{
    let v = w.update(p, w.last()).drop_last();
    assert forall|a: int, b: int| 0 <= a < v.len() && 0 <= b < v.len() && a != b implies v[a] != v[b] by {
        if a == p {
            assert(v[a] == w[w.len() - 1]);
        }
        if b == p {
            assert(v[b] == w[w.len() - 1]);
        }
    }
    assert forall|s: (usize, usize)| #[trigger] v.contains(s) <==> (w.contains(s) && s != w[p]) by {
        if v.contains(s) {
            let a = choose|a: int| 0 <= a < v.len() && v[a] == s;
            if a == p {
                assert(w[w.len() - 1] == s);
            } else {
                assert(w[a] == s);
            }
        }
        if w.contains(s) && s != w[p] {
            let a = choose|a: int| 0 <= a < w.len() && w[a] == s;
            if a == w.len() - 1 {
                assert(v[p] == s);
            } else {
                assert(v[a] == s);
            }
        }
    }
}

/// `path` goes from site to site across shared sides without leaving `c`.
pub open spec fn is_path(c: Seq<(usize, usize)>, path: Seq<(usize, usize)>) -> bool {
    &&& path.len() > 0
    &&& forall|t: int| 0 <= t < path.len() ==> c.contains(#[trigger] path[t])
    &&& forall|t: int| 0 <= t < path.len() - 1 ==> adjacent(#[trigger] path[t], path[t + 1])
}

/// Site `b` is reached from site `a` by a path inside `c`.
pub open spec fn linked(c: Seq<(usize, usize)>, a: (usize, usize), b: (usize, usize)) -> bool {
    exists|path: Seq<(usize, usize)>| #[trigger] is_path(c, path) && path[0] == a && path.last() == b
}

proof fn lemma_linked_grow(c: Seq<(usize, usize)>, e: (usize, usize), a: (usize, usize), b: (usize, usize))
    requires
        linked(c, a, b),
    ensures
        linked(c.push(e), a, b),
{
    let path = choose|path: Seq<(usize, usize)>| #[trigger] is_path(c, path) && path[0] == a && path.last() == b;
    lemma_push_contains(c, e);
    assert forall|t: int| 0 <= t < path.len() implies c.push(e).contains(#[trigger] path[t]) by {
        assert(c.contains(path[t]));
    }
    assert(is_path(c.push(e), path));
}

proof fn lemma_linked_extend(c: Seq<(usize, usize)>, a: (usize, usize), q: (usize, usize), b: (usize, usize))
    requires
        linked(c, a, q),
        adjacent(q, b),
    ensures
        linked(c.push(b), a, b),
{
    let path = choose|path: Seq<(usize, usize)>| #[trigger] is_path(c, path) && path[0] == a && path.last() == q;
    lemma_push_contains(c, b);
    let p2 = path.push(b);
    assert forall|t: int| 0 <= t < p2.len() implies c.push(b).contains(#[trigger] p2[t]) by {
        if t < path.len() {
            assert(p2[t] == path[t]);
            assert(c.contains(path[t]));
        }
    }
    assert forall|t: int| 0 <= t < p2.len() - 1 implies adjacent(#[trigger] p2[t], p2[t + 1]) by {
        if t < path.len() - 1 {
            assert(p2[t] == path[t] && p2[t + 1] == path[t + 1]);
        } else {
            assert(p2[t] == q);
        }
    }
    assert(is_path(c.push(b), p2));
}

proof fn lemma_push_contains(v: Seq<(usize, usize)>, e: (usize, usize))
    ensures
        forall|s: (usize, usize)| #[trigger] v.push(e).contains(s) <==> v.contains(s) || s == e,
{
    assert forall|s: (usize, usize)| #[trigger] v.push(e).contains(s) <==> v.contains(s) || s == e by {
        if v.contains(s) {
            let q = choose|q: int| 0 <= q < v.len() && v[q] == s;
            assert(v.push(e)[q] == s);
        }
        if v.push(e).contains(s) {
            let q = choose|q: int| 0 <= q < v.len() + 1 && v.push(e)[q] == s;
            if q < v.len() {
                assert(v[q] == s);
            }
        }
        assert(v.push(e)[v.len() as int] == e);
    }
}

/// The cluster has a site on the top row and one on the bottom row.
pub open spec fn percolates(c: Seq<(usize, usize)>, box_len: usize) -> bool {
    (exists|s: int| 0 <= s < c.len() && #[trigger] c[s].0 + 1 == box_len) && (exists|s: int|
        0 <= s < c.len() && #[trigger] c[s].0 == 0)
}

/// The percolating clusters among the first `k`, in their order.
pub open spec fn percolating_upto(cs: Seq<Seq<(usize, usize)>>, box_len: usize, k: int) -> Seq<
    Seq<(usize, usize)>,
>
    decreases k,
{
    if k <= 0 {
        Seq::empty()
    } else if percolates(cs[k - 1], box_len) {
        percolating_upto(cs, box_len, k - 1).push(cs[k - 1])
    } else {
        percolating_upto(cs, box_len, k - 1)
    }
}

impl Lattice {
    /// A square grid of `box_len` rows of `box_len` sites, small enough to list every site.
    pub open spec fn wf(&self) -> bool {
        &&& self.grid@.len() == self.box_len
        &&& forall|i: int| 0 <= i < self.box_len ==> (#[trigger] self.grid@[i])@.len() == self.box_len
        &&& self.box_len * self.box_len <= usize::MAX
    }

    /// The site is inside the lattice and occupied.
    pub open spec fn occupied(&self, s: (usize, usize)) -> bool {
        in_box(s, self.box_len) && self.grid@[s.0 as int]@[s.1 as int]
    }

    /// Groups the occupied sites into clusters by flood fill over shared sides. Every
    /// cluster is non-empty and holds occupied sites only; every occupied site is in
    /// exactly one cluster, once; an occupied site next to a site of a cluster is in the
    /// same cluster.
    pub fn create_clusters(&self) -> (r: Clusters)
        requires
            self.wf(),
        ensures
            forall|c: int| 0 <= c < r.clusters@.len() ==> (#[trigger] r.clusters@[c])@.len() > 0,
            forall|c: int, p: int|
                0 <= c < r.clusters@.len() && 0 <= p < r.clusters@[c]@.len() ==> self.occupied(
                    #[trigger] r.clusters@[c]@[p],
                ),
            forall|s: (usize, usize)|
                #[trigger] self.occupied(s) ==> exists|c: int|
                    0 <= c < r.clusters@.len() && #[trigger] r.clusters@[c]@.contains(s),
            distinct_sites(deep(r.clusters@)),
            forall|c: int, p: int|
                0 <= c < r.clusters@.len() && 0 <= p < r.clusters@[c]@.len() ==> linked(
                    r.clusters@[c]@,
                    r.clusters@[c]@[0],
                    #[trigger] r.clusters@[c]@[p],
                ),
            forall|c: int, p: int, s: (usize, usize)|
                0 <= c < r.clusters@.len() && 0 <= p < r.clusters@[c]@.len() && adjacent(
                    #[trigger] r.clusters@[c]@[p],
                    s,
                ) && #[trigger] self.occupied(s) ==> r.clusters@[c]@.contains(s),
    {
        let n = self.box_len;
        let mut world: Vec<(usize, usize)> = Vec::new();
        let mut a: usize = 0;
        while a < n
            invariant
                self.wf(),
                n == self.box_len,
                a <= n,
                world@.len() == a * n,
                world@.no_duplicates(),
                forall|s: (usize, usize)| #[trigger] world@.contains(s) <==> (s.0 < a && s.1 < n),
            decreases n - a,
        {
            let mut b: usize = 0;
            while b < n
                invariant
                    self.wf(),
                    n == self.box_len,
                    a < n,
                    b <= n,
                    world@.len() == a * n + b,
                    world@.no_duplicates(),
                    forall|s: (usize, usize)|
                        #[trigger] world@.contains(s) <==> (s.0 < a || (s.0 == a && s.1 < b)) && s.1 < n,
                decreases n - b,
            {
                proof {
                    assert(a * n + b < n * n) by (nonlinear_arith)
                        requires a < n, b < n;
                }
                let ghost w0 = world@;
                world.push((a, b));
                proof {
                    assert(!w0.contains((a, b)));
                    assert forall|s: (usize, usize)| #[trigger] world@.contains(s) <==> (w0.contains(s)
                        || s == (a, b)) by {
                        if world@.contains(s) {
                            let q = choose|q: int| 0 <= q < world@.len() && world@[q] == s;
                            if q < w0.len() {
                                assert(w0[q] == s);
                            }
                        }
                        if w0.contains(s) {
                            let q = choose|q: int| 0 <= q < w0.len() && w0[q] == s;
                            assert(world@[q] == s);
                        }
                        assert(world@[w0.len() as int] == (a, b));
                    }
                }
                b = b + 1;
            }
            proof {
                assert((a + 1) * n == a * n + n) by (nonlinear_arith);
            }
            a = a + 1;
        }
        let mut clusters: Vec<Vec<(usize, usize)>> = Vec::new();
        while world.len() > 0
            invariant
                self.wf(),
                n == self.box_len,
                world@.no_duplicates(),
                forall|s: (usize, usize)| #[trigger] world@.contains(s) ==> in_box(s, n),
                forall|c: int| 0 <= c < clusters@.len() ==> (#[trigger] clusters@[c])@.len() > 0,
                forall|c: int, p: int|
                    0 <= c < clusters@.len() && 0 <= p < clusters@[c]@.len() ==> self.occupied(
                        #[trigger] clusters@[c]@[p],
                    ) && !world@.contains(clusters@[c]@[p]),
                forall|s: (usize, usize)|
                    #[trigger] self.occupied(s) && !world@.contains(s) ==> exists|c: int|
                        0 <= c < clusters@.len() && #[trigger] clusters@[c]@.contains(s),
                distinct_sites(deep(clusters@)),
                forall|c: int, p: int|
                    0 <= c < clusters@.len() && 0 <= p < clusters@[c]@.len() ==> linked(
                        clusters@[c]@,
                        clusters@[c]@[0],
                        #[trigger] clusters@[c]@[p],
                    ),
                forall|c: int, p: int, s: (usize, usize)|
                    0 <= c < clusters@.len() && 0 <= p < clusters@[c]@.len() && adjacent(
                        #[trigger] clusters@[c]@[p],
                        s,
                    ) && #[trigger] self.occupied(s) ==> clusters@[c]@.contains(s),
            decreases world@.len(),
        {
            let (i, j) = world[world.len() - 1];
            assert(world@.contains((i, j)));
            if self.grid[i][j] {
                let ghost w0 = world@.len();
                let mut new_cluster: Vec<(usize, usize)> = Vec::new();
                let mut to_visit: Vec<(usize, usize)> = Vec::new();
                to_visit.push((i, j));
                let ghost mut parent: Seq<(usize, usize)> = seq![(i, j)];
                while to_visit.len() > 0
                    invariant
                        self.wf(),
                        n == self.box_len,
                        world@.no_duplicates(),
                        forall|s: (usize, usize)| #[trigger] world@.contains(s) ==> in_box(s, n),
                        forall|t: int| 0 <= t < to_visit@.len() ==> in_box(#[trigger] to_visit@[t], n),
                        forall|c: int| 0 <= c < clusters@.len() ==> (#[trigger] clusters@[c])@.len() > 0,
                        forall|c: int, p: int|
                            0 <= c < clusters@.len() && 0 <= p < clusters@[c]@.len() ==> self.occupied(
                                #[trigger] clusters@[c]@[p],
                            ) && !world@.contains(clusters@[c]@[p]),
                        forall|p: int|
                            0 <= p < new_cluster@.len() ==> self.occupied(#[trigger] new_cluster@[p])
                                && !world@.contains(new_cluster@[p]),
                        forall|s: (usize, usize)|
                            #[trigger] self.occupied(s) && !world@.contains(s) ==> new_cluster@.contains(s)
                                || exists|c: int|
                                0 <= c < clusters@.len() && #[trigger] clusters@[c]@.contains(s),
                        distinct_sites(deep(clusters@)),
                        forall|c: int, p: int|
                            0 <= c < clusters@.len() && 0 <= p < clusters@[c]@.len() ==> linked(
                                clusters@[c]@,
                                clusters@[c]@[0],
                                #[trigger] clusters@[c]@[p],
                            ),
                        new_cluster@.len() > 0 ==> forall|p: int|
                            0 <= p < new_cluster@.len() ==> linked(
                                new_cluster@,
                                new_cluster@[0],
                                #[trigger] new_cluster@[p],
                            ),
                        parent.len() == to_visit@.len(),
                        new_cluster@.len() > 0 ==> forall|t: int|
                            0 <= t < parent.len() ==> new_cluster@.contains(#[trigger] parent[t])
                                && adjacent(parent[t], to_visit@[t]),
                        new_cluster@.no_duplicates(),
                        forall|c: int, p: int, q: int|
                            0 <= c < clusters@.len() && 0 <= p < clusters@[c]@.len() && 0 <= q
                                < new_cluster@.len() ==> #[trigger] clusters@[c]@[p]
                                != #[trigger] new_cluster@[q],
                        forall|c: int, p: int, s: (usize, usize)|
                            0 <= c < clusters@.len() && 0 <= p < clusters@[c]@.len() && adjacent(
                                #[trigger] clusters@[c]@[p],
                                s,
                            ) && #[trigger] self.occupied(s) ==> clusters@[c]@.contains(s),
                        forall|p: int, s: (usize, usize)|
                            0 <= p < new_cluster@.len() && adjacent(#[trigger] new_cluster@[p], s)
                                && #[trigger] self.occupied(s) ==> new_cluster@.contains(s)
                                || to_visit@.contains(s),
                        new_cluster@.len() > 0 || (to_visit@ == seq![(i, j)] && world@.contains((i, j))
                            && self.occupied((i, j))),
                        new_cluster@.len() > 0 ==> world@.len() < w0,
                        world@.len() <= w0,
                    decreases world@.len(), to_visit@.len(),
                {
                    let ghost tv_before = to_visit@;
                    let ghost par = parent.last();
                    proof {
                        if new_cluster@.len() > 0 {
                            assert(new_cluster@.contains(parent[parent.len() - 1]));
                        }
                        parent = parent.drop_last();
                    }
                    let (x, y) = to_visit.pop().unwrap();
                    let ghost tv = to_visit@;
                    assert(tv_before =~= tv.push((x, y)));
                    let mut ix: usize = 0;
                    while ix < world.len() && !(world[ix].0 == x && world[ix].1 == y)
                        invariant
                            ix <= world@.len(),
                            forall|q: int| 0 <= q < ix ==> world@[q] != (x, y),
                        decreases world@.len() - ix,
                    {
                        ix = ix + 1;
                    }
                    if ix < world.len() {
                        let ghost wv = world@;
                        world.swap_remove(ix);
                        proof {
                            lemma_swap_remove(wv, ix as int);
                            assert(world@ == wv.update(ix as int, wv.last()).drop_last());
                        }
                        if self.grid[x][y] {
                            let ghost nc0 = new_cluster@;
                            new_cluster.push((x, y));
                            proof {
                                assert forall|q: int| 0 <= q < nc0.len() implies nc0[q] != (x, y) by {
                                    assert(!wv.contains(nc0[q]));
                                }
                                assert(new_cluster@[nc0.len() as int] == (x, y));
                            }
                            proof {
                                let nc1 = new_cluster@;
                                if nc0.len() == 0 {
                                    let path = seq![(x, y)];
                                    assert(is_path(nc1, path)) by {
                                        assert(nc1[0] == (x, y));
                                    }
                                    assert forall|p: int| 0 <= p < nc1.len() implies linked(
                                        nc1,
                                        nc1[0],
                                        #[trigger] nc1[p],
                                    ) by {
                                        assert(is_path(nc1, path) && path[0] == nc1[0] && path.last() == nc1[p]);
                                    }
                                } else {
                                    let k = choose|k: int| 0 <= k < nc0.len() && nc0[k] == par;
                                    assert(linked(nc0, nc0[0], nc0[k]));
                                    lemma_linked_extend(nc0, nc0[0], par, (x, y));
                                    assert forall|p: int| 0 <= p < nc1.len() implies linked(
                                        nc1,
                                        nc1[0],
                                        #[trigger] nc1[p],
                                    ) by {
                                        if p < nc0.len() {
                                            assert(nc1[p] == nc0[p]);
                                            assert(linked(nc0, nc0[0], nc0[p]));
                                            lemma_linked_grow(nc0, (x, y), nc0[0], nc0[p]);
                                        }
                                    }
                                }
                                lemma_push_contains(nc0, (x, y));
                                assert forall|t: int| 0 <= t < parent.len() implies nc1.contains(
                                    #[trigger] parent[t],
                                ) && adjacent(parent[t], to_visit@[t]) by {
                                    assert(nc0.contains(parent[t]));
                                    assert(to_visit@[t] == tv_before[t]);
                                }
                            }
                            if y < n - 1 {
                                proof {
                                    lemma_push_contains(to_visit@, (x, (y + 1) as usize));
                                    parent = parent.push((x, y));
                                }
                                to_visit.push((x, y + 1));
                            }
                            let ghost tv1 = to_visit@;
                            if x < n - 1 {
                                proof {
                                    lemma_push_contains(to_visit@, ((x + 1) as usize, y));
                                    parent = parent.push((x, y));
                                }
                                to_visit.push((x + 1, y));
                            }
                            let ghost tv2 = to_visit@;
                            if y > 0 {
                                proof {
                                    lemma_push_contains(to_visit@, (x, (y - 1) as usize));
                                    parent = parent.push((x, y));
                                }
                                to_visit.push((x, y - 1));
                            }
                            let ghost tv3 = to_visit@;
                            if x > 0 {
                                proof {
                                    lemma_push_contains(to_visit@, ((x - 1) as usize, y));
                                    parent = parent.push((x, y));
                                }
                                to_visit.push((x - 1, y));
                            }
                            proof {
                                assert forall|s: (usize, usize)| adjacent((x, y), s) && in_box(s, n)
                                    implies #[trigger] to_visit@.contains(s) by {
                                    if s.0 == x && s.1 == y + 1 {
                                        assert(tv1.contains(s));
                                    } else if s.0 == x + 1 && s.1 == y {
                                        assert(tv2.contains(s));
                                    } else if s.0 == x && s.1 + 1 == y {
                                        assert(tv3.contains(s));
                                    }
                                }
                            }
                            proof {
                                lemma_push_contains(nc0, (x, y));
                                assert forall|s: (usize, usize)|
                                    #[trigger] self.occupied(s) && !world@.contains(s) implies new_cluster@.contains(s)
                                        || exists|c: int|
                                        0 <= c < clusters@.len() && #[trigger] clusters@[c]@.contains(s) by {
                                    if s != (x, y) {
                                        assert(!wv.contains(s));
                                    }
                                }
                                assert forall|s: (usize, usize)| #[trigger] tv.contains(s) implies to_visit@.contains(
                                    s,
                                ) by {
                                    let q = choose|q: int| 0 <= q < tv.len() && tv[q] == s;
                                    assert(to_visit@[q] == s);
                                }
                                assert forall|p: int, s: (usize, usize)|
                                    0 <= p < new_cluster@.len() && adjacent(#[trigger] new_cluster@[p], s)
                                        && #[trigger] self.occupied(s) implies new_cluster@.contains(s)
                                        || to_visit@.contains(s) by {
                                    if p == nc0.len() {
                                        assert(to_visit@.contains(s));
                                    } else {
                                        assert(new_cluster@[p] == nc0[p]);
                                        if s == (x, y) {
                                            assert(new_cluster@.contains(s));
                                        } else if nc0.contains(s) {
                                            let q = choose|q: int| 0 <= q < nc0.len() && nc0[q] == s;
                                            assert(new_cluster@[q] == s);
                                        } else {
                                            assert(tv.push((x, y)).contains(s));
                                            let q = choose|q: int| 0 <= q < tv.len() + 1 && tv.push((x, y))[q]
                                                == s;
                                            assert(tv.contains(s)) by {
                                                assert(tv[q] == s);
                                            }
                                        }
                                    }
                                }
                            }
                        } else {
                            proof {
                                assert forall|s: (usize, usize)|
                                    #[trigger] self.occupied(s) && !world@.contains(s) implies new_cluster@.contains(s)
                                        || exists|c: int|
                                        0 <= c < clusters@.len() && #[trigger] clusters@[c]@.contains(s) by {
                                    if s != (x, y) {
                                        assert(!wv.contains(s));
                                    }
                                }
                                assert forall|p: int, s: (usize, usize)|
                                    0 <= p < new_cluster@.len() && adjacent(#[trigger] new_cluster@[p], s)
                                        && #[trigger] self.occupied(s) implies new_cluster@.contains(s)
                                        || to_visit@.contains(s) by {
                                    if !new_cluster@.contains(s) {
                                        assert(tv.push((x, y)).contains(s));
                                        let q = choose|q: int| 0 <= q < tv.len() + 1 && tv.push((x, y))[q] == s;
                                        assert(tv[q] == s);
                                    }
                                }
                            }
                        }
                    } else {
                        proof {
                            assert(!world@.contains((x, y)));
                            assert forall|p: int, s: (usize, usize)|
                                0 <= p < new_cluster@.len() && adjacent(#[trigger] new_cluster@[p], s)
                                    && #[trigger] self.occupied(s) implies new_cluster@.contains(s)
                                    || to_visit@.contains(s) by {
                                if !new_cluster@.contains(s) {
                                    assert(tv.push((x, y)).contains(s));
                                    let q = choose|q: int| 0 <= q < tv.len() + 1 && tv.push((x, y))[q] == s;
                                    if q < tv.len() {
                                        assert(tv[q] == s);
                                    } else {
                                        assert(s == (x, y));
                                        let c = choose|c: int|
                                            0 <= c < clusters@.len() && #[trigger] clusters@[c]@.contains(s);
                                        let pc = choose|pc: int|
                                            0 <= pc < clusters@[c]@.len() && clusters@[c]@[pc] == s;
                                        assert(adjacent(clusters@[c]@[pc], new_cluster@[p]));
                                        assert(self.occupied(new_cluster@[p]));
                                        assert(clusters@[c]@.contains(new_cluster@[p]));
                                        let pp = choose|pp: int|
                                            0 <= pp < clusters@[c]@.len() && clusters@[c]@[pp] == new_cluster@[p];
                                        assert(clusters@[c]@[pp] != new_cluster@[p]);
                                    }
                                }
                            }
                        }
                    }
                }
                let ghost cl0 = clusters@;
                clusters.push(new_cluster);
                proof {
                    let d = deep(clusters@);
                    assert(d == deep(cl0).push(clusters@[cl0.len() as int]@));
                    assert forall|c: int, p: int, s: (usize, usize)|
                        0 <= c < clusters@.len() && 0 <= p < clusters@[c]@.len() && adjacent(
                            #[trigger] clusters@[c]@[p],
                            s,
                        ) && #[trigger] self.occupied(s) implies clusters@[c]@.contains(s) by {
                        if c == cl0.len() {
                            assert(!to_visit@.contains(s));
                        } else {
                            assert(clusters@[c] == cl0[c]);
                        }
                    }
                    assert forall|s: (usize, usize)|
                        #[trigger] self.occupied(s) && !world@.contains(s) implies exists|c: int|
                            0 <= c < clusters@.len() && #[trigger] clusters@[c]@.contains(s) by {
                        if clusters@[cl0.len() as int]@.contains(s) {
                        } else {
                            let c = choose|c: int| 0 <= c < cl0.len() && #[trigger] cl0[c]@.contains(s);
                            assert(clusters@[c] == cl0[c]);
                        }
                    }
                }
            } else {
                let ghost wv = world@;
                world.pop();
                proof {
                    assert(world@ == wv.drop_last());
                    assert forall|s: (usize, usize)| #[trigger] wv.contains(s) && s != (i, j) implies world@.contains(
                        s,
                    ) by {
                        let q = choose|q: int| 0 <= q < wv.len() && wv[q] == s;
                        assert(world@[q] == s);
                    }
                    assert forall|s: (usize, usize)| #[trigger] world@.contains(s) implies wv.contains(s) by {
                        let q = choose|q: int| 0 <= q < world@.len() && world@[q] == s;
                        assert(wv[q] == s);
                    }
                }
            }
        }
        let r = Clusters { clusters };
        proof {
            assert forall|s: (usize, usize)| #[trigger] self.occupied(s) implies exists|c: int|
                0 <= c < r.clusters@.len() && #[trigger] r.clusters@[c]@.contains(s) by {
                assert(!world@.contains(s));
                assert(self.occupied(s) && !world@.contains(s));
                let c = choose|c: int| 0 <= c < clusters@.len() && #[trigger] clusters@[c]@.contains(s);
                assert(r.clusters@[c]@.contains(s));
            }
        }
        r
    }
}

impl Clusters {
    /// The clusters as sequences.
    pub open spec fn view_clusters(&self) -> Seq<Seq<(usize, usize)>> {
        self.clusters@.map_values(|c: Vec<(usize, usize)>| c@)
    }

    /// The clusters that reach both the top row (`box_len - 1`) and the bottom row (`0`),
    /// in their order.
    pub fn get_percolating_clusters(&self, box_len: usize) -> (r: Self)
        ensures
            r.view_clusters() == percolating_upto(
                self.view_clusters(),
                box_len,
                self.clusters@.len() as int,
            ),
    {
        let mut pc: Vec<Vec<(usize, usize)>> = Vec::new();
        let mut k: usize = 0;
        while k < self.clusters.len()
            invariant
                k <= self.clusters@.len(),
                pc@.map_values(|c: Vec<(usize, usize)>| c@) == percolating_upto(
                    self.view_clusters(),
                    box_len,
                    k as int,
                ),
            decreases self.clusters@.len() - k,
        {
            let cluster = &self.clusters[k];
            let mut top = false;
            let mut bottom = false;
            let mut s: usize = 0;
            while s < cluster.len()
                invariant
                    s <= cluster@.len(),
                    top == exists|q: int| 0 <= q < s && #[trigger] cluster@[q].0 + 1 == box_len,
                    bottom == exists|q: int| 0 <= q < s && #[trigger] cluster@[q].0 == 0,
                decreases cluster@.len() - s,
            {
                let site = cluster[s];
                if site.0 as u128 + 1 == box_len as u128 {
                    top = true;
                }
                if site.0 == 0 {
                    bottom = true;
                }
                proof {
                    if !top {
                        assert forall|q: int| 0 <= q < s + 1 implies !(#[trigger] cluster@[q].0 + 1
                            == box_len) by {}
                    }
                    if !bottom {
                        assert forall|q: int| 0 <= q < s + 1 implies !(#[trigger] cluster@[q].0 == 0) by {}
                    }
                }
                s = s + 1;
            }
            let ghost before = pc@;
            if top && bottom {
                let mut copy: Vec<(usize, usize)> = Vec::new();
                let mut s: usize = 0;
                while s < cluster.len()
                    invariant
                        s <= cluster@.len(),
                        copy@ == cluster@.take(s as int),
                    decreases cluster@.len() - s,
                {
                    copy.push(cluster[s]);
                    proof {
                        assert(cluster@.take(s + 1) == cluster@.take(s as int).push(cluster@[s as int]));
                    }
                    s = s + 1;
                }
                assert(cluster@.take(cluster@.len() as int) == cluster@);
                pc.push(copy);
                proof {
                    assert(pc@.map_values(|c: Vec<(usize, usize)>| c@) =~= before.map_values(
                        |c: Vec<(usize, usize)>| c@,
                    ).push(cluster@));
                }
            }
            proof {
                assert(self.view_clusters()[k as int] == cluster@);
            }
            k = k + 1;
        }
        Clusters { clusters: pc }
    }
}

} // verus!
