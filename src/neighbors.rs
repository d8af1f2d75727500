use vstd::prelude::*;

use crate::point::{all_in_range, all_in_range_3d, dist2, dist2_3d, Point2d, Point3d};

verus! {

/// For each site, the indices of its neighbors, in the order they were found.
pub struct NearestNeighborMap {
    pub neighbors: Vec<Vec<usize>>,
}

/// For each site `i`, a 0/1 row saying which sites are neighbors of `i`.
pub struct AdjacencyMatrix {
    pub m: Vec<Vec<u8>>,
}

/// Sites `i` and `j` are distinct and closer than the cutoff.
pub open spec fn near_2d(sites: Seq<Point2d>, r_cutoff: int, i: int, j: int) -> bool {
    i != j && r_cutoff > 0 && dist2(sites[i], sites[j]) < r_cutoff * r_cutoff
}

/// Sites `i` and `j` of space are distinct and closer than the cutoff.
pub open spec fn near_3d(sites: Seq<Point3d>, r_cutoff: int, i: int, j: int) -> bool {
    i != j && r_cutoff > 0 && dist2_3d(sites[i], sites[j]) < r_cutoff * r_cutoff
}

/// The indices `j < k` related to `i`, in increasing order.
pub open spec fn related_upto(rel: spec_fn(int, int) -> bool, i: int, k: int) -> Seq<usize>
    decreases k,
{
    if k <= 0 {
        Seq::empty()
    } else if rel(i, k - 1) {
        related_upto(rel, i, k - 1).push((k - 1) as usize)
    } else {
        related_upto(rel, i, k - 1)
    }
}

/// Membership in `related_upto`.
pub proof fn lemma_related_upto_contains(rel: spec_fn(int, int) -> bool, i: int, k: int, j: usize)
    requires
        k <= usize::MAX,
    ensures
        related_upto(rel, i, k).contains(j) ==> j < k && rel(i, j as int),
        j < k && rel(i, j as int) ==> related_upto(rel, i, k).contains(j),
        forall|t: int| 0 <= t < related_upto(rel, i, k).len() ==> related_upto(rel, i, k)[t] < k,
    decreases k,
{
    if k > 0 {
        lemma_related_upto_contains(rel, i, k - 1, j);
        let prev = related_upto(rel, i, k - 1);
        if rel(i, k - 1) {
            let e = (k - 1) as usize;
            let s = prev.push(e);
            assert(s[prev.len() as int] == e);
            if s.contains(j) {
                let t = choose|t: int| 0 <= t < s.len() && #[trigger] s[t] == j;
                if t < prev.len() {
                    assert(prev[t] == s[t]);
                }
            }
            if prev.contains(j) {
                let t = choose|t: int| 0 <= t < prev.len() && #[trigger] prev[t] == j;
                assert(s[t] == j);
            }
            assert forall|t: int| 0 <= t < s.len() implies s[t] < k by {
                if t < prev.len() {
                    assert(s[t] == prev[t]);
                }
            }
        }
    }
}

/// One candidate `k` for the second-order list of site `i`, given the list so far.
pub open spec fn second_step(first: Seq<Seq<usize>>, i: int, acc: Seq<usize>, k: usize) -> Seq<usize> {
    if k == i || first[i].contains(k) || acc.contains(k) {
        acc
    } else {
        acc.push(k)
    }
}

/// The candidates `cands`, taken in order, after the list `acc`.
pub open spec fn second_scan(first: Seq<Seq<usize>>, i: int, acc: Seq<usize>, cands: Seq<usize>) -> Seq<
    usize,
>
    decreases cands.len(),
{
    if cands.len() == 0 {
        acc
    } else {
        second_step(first, i, second_scan(first, i, acc, cands.drop_last()), cands.last())
    }
}

/// The second-order list of site `i` after its first `s` neighbors were visited.
pub open spec fn second_upto(first: Seq<Seq<usize>>, i: int, s: int) -> Seq<usize>
    decreases s,
{
    if s <= 0 {
        Seq::empty()
    } else {
        second_scan(first, i, second_upto(first, i, s - 1), first[first[i][s - 1] as int])
    }
}

/// Site `k` is a neighbor of one of the first `s` neighbors of site `i`.
pub open spec fn reached_via(first: Seq<Seq<usize>>, i: int, s: int, k: usize) -> bool {
    exists|t: int| 0 <= t < s && #[trigger] first[first[i][t] as int].contains(k)
}

proof fn lemma_second_scan(first: Seq<Seq<usize>>, i: int, acc: Seq<usize>, cands: Seq<usize>)
    requires
        acc.no_duplicates(),
    ensures
        second_scan(first, i, acc, cands).no_duplicates(),
        forall|k: usize| #[trigger] second_scan(first, i, acc, cands).contains(k) <==> acc.contains(k) || (
        k != i && !first[i].contains(k) && cands.contains(k)),
    decreases cands.len(),
{
    if cands.len() > 0 {
        let prev = cands.drop_last();
        lemma_second_scan(first, i, acc, prev);
        let a = second_scan(first, i, acc, prev);
        let e = cands.last();
        assert forall|k: usize| cands.contains(k) <==> prev.contains(k) || k == e by {
            if cands.contains(k) {
                let q = choose|q: int| 0 <= q < cands.len() && cands[q] == k;
                if q < prev.len() {
                    assert(prev[q] == k);
                }
            }
            if prev.contains(k) {
                let q = choose|q: int| 0 <= q < prev.len() && prev[q] == k;
                assert(cands[q] == k);
            }
            assert(cands[cands.len() - 1] == e);
        }
        if !(e == i || first[i].contains(e) || a.contains(e)) {
            assert forall|k: usize| #[trigger] a.push(e).contains(k) <==> a.contains(k) || k == e by {
                if a.contains(k) {
                    let q = choose|q: int| 0 <= q < a.len() && a[q] == k;
                    assert(a.push(e)[q] == k);
                }
                if a.push(e).contains(k) {
                    let q = choose|q: int| 0 <= q < a.len() + 1 && a.push(e)[q] == k;
                    if q < a.len() {
                        assert(a[q] == k);
                    }
                }
                assert(a.push(e)[a.len() as int] == e);
            }
            assert forall|p: int, q: int| 0 <= p < a.push(e).len() && 0 <= q < a.push(e).len() && p != q
                implies a.push(e)[p] != a.push(e)[q] by {
                if p < a.len() && q < a.len() {
                } else if p < a.len() {
                    assert(a.contains(a[p]));
                } else if q < a.len() {
                    assert(a.contains(a[q]));
                }
            }
        }
    }
}

/// Second-order lists hold, each once, the neighbors of the first `s` neighbors of `i`
/// that are neither `i` nor a neighbor of `i`.
pub proof fn lemma_second_upto(first: Seq<Seq<usize>>, i: int, s: int)
    requires
        0 <= s <= first[i].len(),
        forall|t: int| 0 <= t < first[i].len() ==> 0 <= #[trigger] first[i][t] < first.len(),
    ensures
        second_upto(first, i, s).no_duplicates(),
        forall|k: usize| #[trigger] second_upto(first, i, s).contains(k) <==> (k != i && !first[i].contains(k)
            && reached_via(first, i, s, k)),
    decreases s,
{
    if s > 0 {
        lemma_second_upto(first, i, s - 1);
        let j = first[i][s - 1] as int;
        lemma_second_scan(first, i, second_upto(first, i, s - 1), first[j]);
        assert forall|k: usize| reached_via(first, i, s, k) <==> reached_via(first, i, s - 1, k)
            || first[j].contains(k) by {
            if reached_via(first, i, s, k) {
                let t = choose|t: int| 0 <= t < s && #[trigger] first[first[i][t] as int].contains(k);
                if t < s - 1 {
                    assert(reached_via(first, i, s - 1, k));
                }
            }
            if reached_via(first, i, s - 1, k) {
                let t = choose|t: int| 0 <= t < s - 1 && #[trigger] first[first[i][t] as int].contains(k);
                assert(first[first[i][t] as int].contains(k));
            }
            if first[j].contains(k) {
                assert(first[first[i][s - 1] as int].contains(k));
            }
        }
    }
}

/// First-order neighbors are symmetric: `j` is listed for `i` exactly when `i` is listed
/// for `j`.
pub proof fn lemma_first_2d_symmetric(
    map: NearestNeighborMap,
    sites: Seq<Point2d>,
    r_cutoff: i64,
    i: usize,
    j: usize,
)
    requires
        sites.len() <= usize::MAX,
        map.lists_are(sites.len() as int, |a: int, b: int| near_2d(sites, r_cutoff as int, a, b)),
        i < sites.len(),
        j < sites.len(),
    ensures
        map.neighbors@[i as int]@.contains(j) <==> map.neighbors@[j as int]@.contains(i),
{
    let rel = |a: int, b: int| near_2d(sites, r_cutoff as int, a, b);
    let n = sites.len() as int;
    lemma_related_upto_contains(rel, i as int, n, j);
    lemma_related_upto_contains(rel, j as int, n, i);
    crate::point::lemma_dist2_symmetric(sites[i as int], sites[j as int]);
    assert(map.neighbors@[i as int]@ == related_upto(rel, i as int, n));
    assert(map.neighbors@[j as int]@ == related_upto(rel, j as int, n));
}

/// `related_upto` depends only on the relation over the indices it visits.
pub proof fn lemma_related_upto_ext(
    rel1: spec_fn(int, int) -> bool,
    rel2: spec_fn(int, int) -> bool,
    i: int,
    k: int,
)
    requires
        forall|j: int| 0 <= j < k ==> #[trigger] rel1(i, j) == rel2(i, j),
    ensures
        related_upto(rel1, i, k) == related_upto(rel2, i, k),
    decreases k,
{
    if k > 0 {
        lemma_related_upto_ext(rel1, rel2, i, k - 1);
    }
}

/// Strictly increasing.
pub open spec fn increasing(s: Seq<usize>) -> bool {
    forall|p: int, q: int| 0 <= p < q < s.len() ==> s[p] < s[q]
}

/// `related_upto` lists its indices in strictly increasing order.
pub proof fn lemma_related_upto_increasing(rel: spec_fn(int, int) -> bool, i: int, k: int)
    requires
        k <= usize::MAX,
    ensures
        increasing(related_upto(rel, i, k)),
    decreases k,
{
    if k > 0 {
        lemma_related_upto_increasing(rel, i, k - 1);
        lemma_related_upto_contains(rel, i, k - 1, 0);
    }
}

/// Two strictly increasing sequences with the same elements are equal.
pub proof fn lemma_increasing_unique(s: Seq<usize>, t: Seq<usize>)
    requires
        increasing(s),
        increasing(t),
        forall|x: usize| s.contains(x) <==> t.contains(x),
    ensures
        s == t,
    decreases s.len() + t.len(),
{
    if s.len() == 0 || t.len() == 0 {
        if s.len() > 0 {
            assert(s.contains(s[0]));
        }
        if t.len() > 0 {
            assert(t.contains(t[0]));
        }
        assert(s =~= t);
    } else {
        let (ls, lt) = (s.last(), t.last());
        assert(s.contains(ls));
        assert(t.contains(lt));
        let ps = choose|p: int| 0 <= p < s.len() && #[trigger] s[p] == lt;
        let pt = choose|p: int| 0 <= p < t.len() && #[trigger] t[p] == ls;
        assert(ls == lt);
        let (s2, t2) = (s.drop_last(), t.drop_last());
        assert forall|x: usize| s2.contains(x) <==> t2.contains(x) by {
            if s2.contains(x) {
                let p = choose|p: int| 0 <= p < s2.len() && #[trigger] s2[p] == x;
                assert(s[p] == x);
                assert(t.contains(x));
                let q = choose|q: int| 0 <= q < t.len() && #[trigger] t[q] == x;
                assert(q < t.len() - 1);
                assert(t2[q] == x);
            }
            if t2.contains(x) {
                let p = choose|p: int| 0 <= p < t2.len() && #[trigger] t2[p] == x;
                assert(t[p] == x);
                assert(s.contains(x));
                let q = choose|q: int| 0 <= q < s.len() && #[trigger] s[q] == x;
                assert(q < s.len() - 1);
                assert(s2[q] == x);
            }
        }
        lemma_increasing_unique(s2, t2);
        assert(s =~= s2.push(ls));
        assert(t =~= t2.push(lt));
    }
}

impl NearestNeighborMap {
    /// Every listed neighbor is the index of a site.
    pub open spec fn wf(&self) -> bool {
        forall|i: int, t: int|
            0 <= i < self.neighbors@.len() && 0 <= t < self.neighbors@[i]@.len()
                ==> #[trigger] self.neighbors@[i]@[t] < self.neighbors@.len()
    }

    /// The neighbor lists of `rel` over `n` sites.
    pub open spec fn lists_are(&self, n: int, rel: spec_fn(int, int) -> bool) -> bool {
        &&& self.neighbors@.len() == n
        &&& forall|i: int| 0 <= i < n ==> #[trigger] self.neighbors@[i]@ == related_upto(rel, i, n)
    }

    /// The sites closer than `r_cutoff` to each site, in increasing index order.
    pub fn first_2d(sites: &[Point2d], r_cutoff: i64) -> (r: Self)
        requires
            all_in_range(sites@),
        ensures
            r.lists_are(sites@.len() as int, |i: int, j: int| near_2d(sites@, r_cutoff as int, i, j)),
    {
        let ghost rel = |i: int, j: int| near_2d(sites@, r_cutoff as int, i, j);
        let n = sites.len();
        let mut neighbors: Vec<Vec<usize>> = Vec::new();
        while neighbors.len() < n
            invariant
                neighbors@.len() <= n,
                forall|i: int| 0 <= i < neighbors@.len() ==> #[trigger] neighbors@[i]@ == Seq::<usize>::empty(),
            decreases n - neighbors@.len(),
        {
            neighbors.push(Vec::new());
        }
        proof {
            crate::point::lemma_sq_bound(r_cutoff as int, 0x8000_0000_0000_0000);
        }
        let cut2: i128 = if r_cutoff > 0 { r_cutoff as i128 * r_cutoff as i128 } else { 0 };
        let mut a: usize = 0;
        while a < n
            invariant
                n == sites@.len(),
                all_in_range(sites@),
                a <= n,
                rel == (|i: int, j: int| near_2d(sites@, r_cutoff as int, i, j)),
                cut2 == (if r_cutoff > 0 { r_cutoff * r_cutoff } else { 0 }),
                neighbors@.len() == n,
                forall|i: int| 0 <= i < a ==> #[trigger] neighbors@[i]@ == related_upto(rel, i, n as int),
                forall|i: int| a <= i < n ==> #[trigger] neighbors@[i]@ == related_upto(rel, i, a as int),
            decreases n - a,
        {
            let mut b: usize = a + 1;
            assert(!rel(a as int, a as int));
            assert(related_upto(rel, a as int, a + 1) == related_upto(rel, a as int, a as int));
            while b < n
                invariant
                    n == sites@.len(),
                    all_in_range(sites@),
                    a < n,
                    a + 1 <= b <= n,
                    rel == (|i: int, j: int| near_2d(sites@, r_cutoff as int, i, j)),
                    cut2 == (if r_cutoff > 0 { r_cutoff * r_cutoff } else { 0 }),
                    neighbors@.len() == n,
                    forall|i: int| 0 <= i < a ==> #[trigger] neighbors@[i]@ == related_upto(rel, i, n as int),
                    neighbors@[a as int]@ == related_upto(rel, a as int, b as int),
                    forall|i: int| a < i < b ==> #[trigger] neighbors@[i]@ == related_upto(rel, i, a + 1),
                    forall|i: int| b <= i < n ==> #[trigger] neighbors@[i]@ == related_upto(rel, i, a as int),
                decreases n - b,
            {
                let d2 = sites[a].distance_squared_to(&sites[b]);
                proof {
                    assert(sites@[a as int].in_range());
                    assert(sites@[b as int].in_range());
                }
                if d2 < cut2 {
                    neighbors[a].push(b);
                    neighbors[b].push(a);
                }
                proof {
                    crate::point::lemma_dist2_symmetric(sites@[a as int], sites@[b as int]);
                    assert(rel(a as int, b as int) == (d2 < cut2));
                    assert(rel(b as int, a as int) == (d2 < cut2));
                }
                b = b + 1;
            }
            a = a + 1;
        }
        NearestNeighborMap { neighbors }
    }

    /// The sites of space closer than `r_cutoff` to each site, in increasing index order.
    pub fn first_3d(sites: &[Point3d], r_cutoff: i64) -> (r: Self)
        requires
            all_in_range_3d(sites@),
        ensures
            r.lists_are(sites@.len() as int, |i: int, j: int| near_3d(sites@, r_cutoff as int, i, j)),
    {
        let ghost rel = |i: int, j: int| near_3d(sites@, r_cutoff as int, i, j);
        let n = sites.len();
        let mut neighbors: Vec<Vec<usize>> = Vec::new();
        while neighbors.len() < n
            invariant
                neighbors@.len() <= n,
                forall|i: int| 0 <= i < neighbors@.len() ==> #[trigger] neighbors@[i]@ == Seq::<usize>::empty(),
            decreases n - neighbors@.len(),
        {
            neighbors.push(Vec::new());
        }
        proof {
            crate::point::lemma_sq_bound(r_cutoff as int, 0x8000_0000_0000_0000);
        }
        let cut2: i128 = if r_cutoff > 0 { r_cutoff as i128 * r_cutoff as i128 } else { 0 };
        let mut a: usize = 0;
        while a < n
            invariant
                n == sites@.len(),
                all_in_range_3d(sites@),
                a <= n,
                rel == (|i: int, j: int| near_3d(sites@, r_cutoff as int, i, j)),
                cut2 == (if r_cutoff > 0 { r_cutoff * r_cutoff } else { 0 }),
                neighbors@.len() == n,
                forall|i: int| 0 <= i < a ==> #[trigger] neighbors@[i]@ == related_upto(rel, i, n as int),
                forall|i: int| a <= i < n ==> #[trigger] neighbors@[i]@ == related_upto(rel, i, a as int),
            decreases n - a,
        {
            let mut b: usize = a + 1;
            assert(!rel(a as int, a as int));
            assert(related_upto(rel, a as int, a + 1) == related_upto(rel, a as int, a as int));
            while b < n
                invariant
                    n == sites@.len(),
                    all_in_range_3d(sites@),
                    a < n,
                    a + 1 <= b <= n,
                    rel == (|i: int, j: int| near_3d(sites@, r_cutoff as int, i, j)),
                    cut2 == (if r_cutoff > 0 { r_cutoff * r_cutoff } else { 0 }),
                    neighbors@.len() == n,
                    forall|i: int| 0 <= i < a ==> #[trigger] neighbors@[i]@ == related_upto(rel, i, n as int),
                    neighbors@[a as int]@ == related_upto(rel, a as int, b as int),
                    forall|i: int| a < i < b ==> #[trigger] neighbors@[i]@ == related_upto(rel, i, a + 1),
                    forall|i: int| b <= i < n ==> #[trigger] neighbors@[i]@ == related_upto(rel, i, a as int),
                decreases n - b,
            {
                let d2 = sites[a].distance_squared_to(&sites[b]);
                proof {
                    assert(sites@[a as int].in_range());
                    assert(sites@[b as int].in_range());
                }
                if d2 < cut2 {
                    neighbors[a].push(b);
                    neighbors[b].push(a);
                }
                proof {
                    crate::point::lemma_dist2_3d_symmetric(sites@[a as int], sites@[b as int]);
                    assert(rel(a as int, b as int) == (d2 < cut2));
                    assert(rel(b as int, a as int) == (d2 < cut2));
                }
                b = b + 1;
            }
            a = a + 1;
        }
        NearestNeighborMap { neighbors }
    }

    /// For each site, the neighbors of its neighbors that are neither the site itself nor
    /// one of its own neighbors, each once, in the order they are met.
    pub fn second(first_neighbors: &Self) -> (r: Self)
        requires
            first_neighbors.wf(),
        ensures
            r.neighbors@.len() == first_neighbors.neighbors@.len(),
            forall|i: int|
                0 <= i < r.neighbors@.len() ==> #[trigger] r.neighbors@[i]@ == second_upto(
                    first_neighbors.view_lists(),
                    i,
                    first_neighbors.neighbors@[i]@.len() as int,
                ),
            forall|i: int|
                0 <= i < r.neighbors@.len() ==> (#[trigger] r.neighbors@[i])@.no_duplicates(),
            forall|i: int, k: usize|
                0 <= i < r.neighbors@.len() ==> (#[trigger] r.neighbors@[i]@.contains(k) <==> (k != i
                    && !first_neighbors.neighbors@[i]@.contains(k) && reached_via(
                    first_neighbors.view_lists(),
                    i,
                    first_neighbors.neighbors@[i]@.len() as int,
                    k,
                ))),
    {
        let ghost first = first_neighbors.view_lists();
        let n = first_neighbors.neighbors.len();
        let mut second_neighbors: Vec<Vec<usize>> = Vec::new();
        let mut i: usize = 0;
        while i < n
            invariant
                n == first_neighbors.neighbors@.len(),
                first_neighbors.wf(),
                first == first_neighbors.view_lists(),
                i <= n,
                second_neighbors@.len() == i,
                forall|a: int|
                    0 <= a < i ==> #[trigger] second_neighbors@[a]@ == second_upto(
                        first,
                        a,
                        first[a].len() as int,
                    ),
            decreases n - i,
        {
            let first_i = &first_neighbors.neighbors[i];
            let mut acc: Vec<usize> = Vec::new();
            let mut t: usize = 0;
            while t < first_i.len()
                invariant
                    n == first_neighbors.neighbors@.len(),
                    first_neighbors.wf(),
                    first == first_neighbors.view_lists(),
                    i < n,
                    first_i@ == first[i as int],
                    t <= first_i@.len(),
                    acc@ == second_upto(first, i as int, t as int),
                decreases first_i@.len() - t,
            {
                let j = first_i[t];
                assert(first_neighbors.neighbors@[i as int]@[t as int] < n);
                let first_j = &first_neighbors.neighbors[j];
                let ghost base = acc@;
                let mut u: usize = 0;
                while u < first_j.len()
                    invariant
                        i < n,
                        j < n,
                        first_i@ == first[i as int],
                        first_j@ == first[j as int],
                        u <= first_j@.len(),
                        acc@ == second_scan(first, i as int, base, first_j@.take(u as int)),
                    decreases first_j@.len() - u,
                {
                    let k = first_j[u];
                    assert(first_j@.take(u + 1).drop_last() == first_j@.take(u as int));
                    assert(first_j@.take(u + 1).last() == k);
                    if !(i == k || list_contains(first_i, k) || list_contains(&acc, k)) {
                        acc.push(k);
                    }
                    u = u + 1;
                }
                assert(first_j@.take(first_j@.len() as int) == first_j@);
                t = t + 1;
            }
            second_neighbors.push(acc);
            i = i + 1;
        }
        proof {
            assert forall|a: int| 0 <= a < n implies (#[trigger] second_neighbors@[a])@.no_duplicates()
                && forall|k: usize| #[trigger] second_neighbors@[a]@.contains(k) <==> (k != a
                && !first_neighbors.neighbors@[a]@.contains(k) && reached_via(
                first,
                a,
                first_neighbors.neighbors@[a]@.len() as int,
                k,
            )) by {
                assert(first[a] == first_neighbors.neighbors@[a]@);
                assert forall|t: int| 0 <= t < first[a].len() implies 0 <= #[trigger] first[a][t] < first.len() by {
                    assert(first_neighbors.neighbors@[a]@[t] < n);
                }
                lemma_second_upto(first, a, first[a].len() as int);
            }
        }
        NearestNeighborMap { neighbors: second_neighbors }
    }

    /// The neighbor lists as sequences.
    pub open spec fn view_lists(&self) -> Seq<Seq<usize>> {
        self.neighbors@.map_values(|v: Vec<usize>| v@)
    }
}

impl AdjacencyMatrix {
    /// The 0/1 matrix of a neighbor map: `m[i][j] == 1` exactly when `j` is listed for `i`.
    pub fn from(nn_map: &NearestNeighborMap) -> (r: Self)
        requires
            nn_map.wf(),
        ensures
            r.m@.len() == nn_map.neighbors@.len(),
            forall|i: int|
                0 <= i < r.m@.len() ==> (#[trigger] r.m@[i])@.len() == nn_map.neighbors@.len(),
            forall|i: int, j: int|
                0 <= i < r.m@.len() && 0 <= j < r.m@.len() ==> (#[trigger] r.m@[i]@[j] == 1
                    <==> nn_map.neighbors@[i]@.contains(j as usize)) && (r.m@[i]@[j] == 0 || r.m@[i]@[j]
                    == 1),
    {
        let n = nn_map.neighbors.len();
        let mut m: Vec<Vec<u8>> = Vec::new();
        let mut i: usize = 0;
        while i < n
            invariant
                n == nn_map.neighbors@.len(),
                nn_map.wf(),
                i <= n,
                m@.len() == i,
                forall|a: int| 0 <= a < i ==> (#[trigger] m@[a])@.len() == n,
                forall|a: int, j: int|
                    0 <= a < i && 0 <= j < n ==> (#[trigger] m@[a]@[j] == 1
                        <==> nn_map.neighbors@[a]@.contains(j as usize)) && (m@[a]@[j] == 0 || m@[a]@[j]
                        == 1),
            decreases n - i,
        {
            let row_nbrs = &nn_map.neighbors[i];
            let mut row: Vec<u8> = Vec::new();
            let mut j: usize = 0;
            while j < n
                invariant
                    j <= n,
                    row@.len() == j,
                    row_nbrs@ == nn_map.neighbors@[i as int]@,
                    forall|b: int|
                        0 <= b < j ==> (#[trigger] row@[b] == 1 <==> row_nbrs@.contains(b as usize)) && (
                        row@[b] == 0 || row@[b] == 1),
                decreases n - j,
            {
                if list_contains(row_nbrs, j) {
                    row.push(1);
                } else {
                    row.push(0);
                }
                j = j + 1;
            }
            m.push(row);
            i = i + 1;
        }
        AdjacencyMatrix { m }
    }
}

/// Whether `x` occurs in `v`.
pub fn list_contains(v: &Vec<usize>, x: usize) -> (r: bool)
    ensures
        r == v@.contains(x),
{
    let mut t: usize = 0;
    while t < v.len()
        invariant
            t <= v@.len(),
            forall|u: int| 0 <= u < t ==> v@[u] != x,
        decreases v@.len() - t,
    {
        if v[t] == x {
            return true;
        }
        t = t + 1;
    }
    false
}

} // verus!
