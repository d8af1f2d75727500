use planar_geometry::error::GeometryError;
use planar_geometry::hull::compute_convex_hull;
use planar_geometry::lattice::{Clusters, Lattice};
use planar_geometry::line::Line2d;
use planar_geometry::point::{Point2d, RatPoint};
use planar_geometry::voronoi::{voronoi_701, CellEdge};

fn p(x: i64, y: i64) -> Point2d {
    Point2d { x, y }
}

fn rat(q: RatPoint) -> (f64, f64) {
    (q.x as f64 / q.w as f64, q.y as f64 / q.w as f64)
}

fn edge_f64(e: &CellEdge) -> ((f64, f64), (f64, f64)) {
    (rat(e.src), rat(e.dst))
}

fn len(l: &Line2d) -> f64 {
    (l.length_squared() as f64).sqrt()
}

#[test]
fn voronoi_square_cell() {
    let sites = vec![p(0, 0), p(64, 0), p(0, 64), p(-64, 0), p(0, -64)];
    let tri = vec![vec![3, 1, 4, 2], vec![], vec![], vec![], vec![]];
    let edges = voronoi_701(&sites, &tri).unwrap();
    let got: Vec<_> = edges.iter().map(edge_f64).collect();
    assert_eq!(
        got,
        vec![
            ((32.0, -32.0), (32.0, 32.0)),
            ((32.0, 32.0), (-32.0, 32.0)),
            ((-32.0, 32.0), (-32.0, -32.0)),
            ((-32.0, -32.0), (32.0, -32.0)),
        ]
    );
}

#[test]
fn voronoi_drops_long_edges() {
    let sites = vec![p(0, 0), p(256, 0), p(0, 256), p(-256, 0), p(0, -256)];
    let tri = vec![vec![1, 2, 3, 4], vec![], vec![], vec![], vec![]];
    assert_eq!(voronoi_701(&sites, &tri).unwrap(), vec![]);
}

#[test]
fn voronoi_keeps_edge_at_the_limit() {
    let sites = vec![p(0, 0), p(128, 0), p(0, 128), p(-128, 0), p(0, -128)];
    let tri = vec![vec![1, 2, 3, 4], vec![], vec![], vec![], vec![]];
    assert_eq!(voronoi_701(&sites, &tri).unwrap().len(), 4);
}

#[test]
fn voronoi_single_spoke_is_degenerate() {
    let sites = vec![p(0, 0), p(64, 0)];
    let tri = vec![vec![1], vec![]];
    assert_eq!(voronoi_701(&sites, &tri), Err(GeometryError::DegenerateGeometry));
}

#[test]
fn hull_of_unit_square() {
    let mut grid = vec![p(0, 0), p(1, 0), p(1, 1), p(0, 1)];
    let hull = compute_convex_hull(&mut grid).unwrap();
    assert_eq!(hull.len(), 4);
    for w in 0..hull.len() {
        assert_eq!(hull[w].dst, hull[(w + 1) % hull.len()].src);
    }
    for q in [p(0, 0), p(1, 0), p(1, 1), p(0, 1)] {
        assert!(hull.iter().any(|l| l.src == q));
    }
    let perimeter: f64 = hull.iter().map(len).sum();
    assert!((perimeter - 4.0).abs() < 1e-12);
    assert_eq!(grid, vec![p(0, 0), p(0, 1), p(1, 0), p(1, 1)]);
}

#[test]
fn hull_sorts_sites_by_x() {
    let mut grid = vec![p(5, 5), p(1, 9), p(3, 1), p(9, 4), p(4, 4)];
    let hull = compute_convex_hull(&mut grid).unwrap();
    for w in grid.windows(2) {
        assert!(w[0].x <= w[1].x);
    }
    assert_eq!(hull.len(), 3);
    assert!(hull.iter().all(|l| l.src != p(4, 4) && l.src != p(5, 5)));
}

#[test]
fn hull_needs_three_sites() {
    let mut grid = vec![p(2, 0), p(1, 0)];
    assert_eq!(compute_convex_hull(&mut grid), Err(GeometryError::TooFewSites));
    assert_eq!(grid, vec![p(2, 0), p(1, 0)]);
}

fn undirected(a: Point2d, b: Point2d) -> ((i64, i64), (i64, i64)) {
    let (u, v) = ((a.x, a.y), (b.x, b.y));
    if u <= v { (u, v) } else { (v, u) }
}

#[test]
fn hull_matches_delaunator() {
    let mut seed: u64 = 12345;
    let mut next = || {
        seed = seed.wrapping_mul(6364136223846793005).wrapping_add(1442695040888963407);
        ((seed >> 33) % 1280) as i64 + 1
    };
    let mut grid: Vec<Point2d> = Vec::new();
    while grid.len() < 500 {
        let q = p(next(), next());
        if !grid.contains(&q) {
            grid.push(q);
        }
    }
    let points: Vec<delaunator::Point> =
        grid.iter().map(|q| delaunator::Point { x: q.x as f64, y: q.y as f64 }).collect();
    let t = delaunator::triangulate(&points);
    let h = &t.hull;
    let mut theirs: Vec<_> =
        (0..h.len()).map(|w| undirected(grid[h[w]], grid[h[(w + 1) % h.len()]])).collect();
    let hull = compute_convex_hull(&mut grid).unwrap();
    let mut ours: Vec<_> = hull.iter().map(|l| undirected(l.src, l.dst)).collect();
    ours.sort();
    theirs.sort();
    assert_eq!(ours, theirs);
}

#[test]
fn percolating_clusters_touch_top_and_bottom() {
    let c = Clusters {
        clusters: vec![
            vec![(0, 1), (1, 1), (2, 1)],
            vec![(1, 0)],
            vec![(2, 2), (1, 2)],
            vec![(0, 0), (2, 0)],
        ],
    };
    let pc = c.get_percolating_clusters(3);
    assert_eq!(pc.clusters, vec![vec![(0, 1), (1, 1), (2, 1)], vec![(0, 0), (2, 0)]]);
    assert!(c.get_percolating_clusters(4).clusters.is_empty());
}

fn normalized(c: &Clusters) -> Vec<Vec<(usize, usize)>> {
    let mut v: Vec<Vec<(usize, usize)>> = c
        .clusters
        .iter()
        .map(|k| {
            let mut k = k.clone();
            k.sort();
            k
        })
        .collect();
    v.sort();
    v
}

#[test]
fn clusters_are_connected_groups() {
    let lattice = Lattice {
        grid: vec![vec![true, false, true], vec![true, false, false], vec![false, false, true]],
        box_len: 3,
    };
    let c = lattice.create_clusters();
    assert_eq!(normalized(&c), vec![vec![(0, 0), (1, 0)], vec![(0, 2)], vec![(2, 2)]]);
    assert!(c.get_percolating_clusters(3).clusters.is_empty());
}

#[test]
fn spanning_cluster_percolates() {
    let lattice = Lattice {
        grid: vec![vec![false, true, false], vec![true, true, false], vec![false, true, true]],
        box_len: 3,
    };
    let c = lattice.create_clusters();
    assert_eq!(c.clusters.len(), 1);
    assert_eq!(normalized(&c), vec![vec![(0, 1), (1, 0), (1, 1), (2, 1), (2, 2)]]);
    assert_eq!(c.get_percolating_clusters(3).clusters.len(), 1);
}

#[test]
fn empty_lattice_has_no_clusters() {
    let lattice = Lattice { grid: vec![vec![false; 4]; 4], box_len: 4 };
    assert!(lattice.create_clusters().clusters.is_empty());
    let lattice = Lattice { grid: vec![], box_len: 0 };
    assert!(lattice.create_clusters().clusters.is_empty());
}
