use planar_geometry::delaunay::{dealunay_2d, to_lines_2d};
use planar_geometry::error::GeometryError;
use planar_geometry::point::Point2d;

fn p(x: i64, y: i64) -> Point2d {
    Point2d { x, y }
}

fn orient(a: Point2d, b: Point2d, c: Point2d) -> i128 {
    (b.x - a.x) as i128 * (c.y - a.y) as i128 - (b.y - a.y) as i128 * (c.x - a.x) as i128
}

/// Classic in-circle determinant: positive when `d` is strictly inside the circle
/// through the counterclockwise triangle `a b c`.
fn in_circle(a: Point2d, b: Point2d, c: Point2d, d: Point2d) -> bool {
    let (ax, ay) = ((a.x - d.x) as i128, (a.y - d.y) as i128);
    let (bx, by) = ((b.x - d.x) as i128, (b.y - d.y) as i128);
    let (cx, cy) = ((c.x - d.x) as i128, (c.y - d.y) as i128);
    let det = (ax * ax + ay * ay) * (bx * cy - cx * by) - (bx * bx + by * by) * (ax * cy - cx * ay)
        + (cx * cx + cy * cy) * (ax * by - bx * ay);
    if orient(a, b, c) > 0 { det > 0 } else { det < 0 }
}

fn sample_sites() -> Vec<Point2d> {
    vec![p(0, 0), p(100, 0), p(50, 80), p(50, -70), p(160, 50), p(-60, 40), p(120, -90)]
}

fn empty_triangle(sites: &[Point2d], i: usize, j: usize, k: usize) -> bool {
    orient(sites[i], sites[j], sites[k]) != 0
        && (0..sites.len())
            .filter(|&v| v != i && v != j && v != k)
            .all(|v| !in_circle(sites[i], sites[j], sites[k], sites[v]))
}

#[test]
fn triangulation_edges_have_empty_circumcircles() {
    let sites = sample_sites();
    let lines = dealunay_2d(&sites, 1000, false).unwrap();
    let n = sites.len();
    let mut count = 0;
    for a in 0..n {
        for &b in &lines[a] {
            count += 1;
            let mut witnessed = false;
            for i in 0..n {
                for j in 0..n {
                    for k in 0..n {
                        if i == j || j == k || i == k {
                            continue;
                        }
                        let gives = (a == i && (b == j || b == k)) || (a == j && b == k);
                        if gives && empty_triangle(&sites, i, j, k) {
                            witnessed = true;
                        }
                    }
                }
            }
            assert!(witnessed, "edge {} -> {} has no empty triangle", a, b);
        }
    }
    assert!(count > 0);
}

#[test]
fn triangulation_matches_a_direct_search() {
    let sites = sample_sites();
    let n = sites.len();
    let lines = dealunay_2d(&sites, 1000, false).unwrap();
    let mut expected = vec![Vec::new(); n];
    for i in 0..n {
        for j in 0..n {
            for k in 0..n {
                if i == j || j == k || i == k || !empty_triangle(&sites, i, j, k) {
                    continue;
                }
                expected[i].push(j);
                expected[i].push(k);
                expected[j].push(k);
            }
        }
    }
    for row in expected.iter_mut() {
        row.sort_unstable();
        row.dedup();
    }
    assert_eq!(lines, expected);
}

#[test]
fn triangulation_lists_are_sorted_and_unique() {
    let sites = sample_sites();
    let lines = dealunay_2d(&sites, 1000, false).unwrap();
    for row in &lines {
        for w in row.windows(2) {
            assert!(w[0] < w[1]);
        }
    }
}

#[test]
fn small_cutoff_prunes_triangles() {
    let sites = sample_sites();
    let lines = dealunay_2d(&sites, 10, false).unwrap();
    assert!(lines.iter().all(|row| row.is_empty()));
}

#[test]
fn bidirectional_appends_incoming_edges() {
    let sites = sample_sites();
    let base = dealunay_2d(&sites, 1000, false).unwrap();
    let both = dealunay_2d(&sites, 1000, true).unwrap();
    for a in 0..sites.len() {
        let mut expected = base[a].clone();
        for i in 0..sites.len() {
            if base[i].contains(&a) {
                expected.push(i);
            }
        }
        assert_eq!(both[a], expected);
    }
}

#[test]
fn collinear_candidates_are_degenerate() {
    let sites = vec![p(0, 0), p(10, 0), p(20, 0)];
    assert_eq!(dealunay_2d(&sites, 100, false), Err(GeometryError::DegenerateGeometry));
}

#[test]
fn too_few_sites_for_triangulation() {
    let sites = vec![p(0, 0), p(10, 0)];
    assert_eq!(dealunay_2d(&sites, 100, false), Err(GeometryError::TooFewSites));
}

#[test]
fn lines_from_triangulation() {
    let t = vec![vec![1, 2], vec![2], vec![]];
    assert_eq!(to_lines_2d(&t), vec![(0, 1), (0, 2), (1, 2)]);
    let t = vec![vec![2, 1, 2], vec![0]];
    assert_eq!(to_lines_2d(&t), vec![(0, 1), (0, 2), (1, 0)]);
    assert_eq!(to_lines_2d(&[]), Vec::<(usize, usize)>::new());
}
