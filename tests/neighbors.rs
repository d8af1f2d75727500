use planar_geometry::neighbors::{AdjacencyMatrix, NearestNeighborMap};
use planar_geometry::point::{Point2d, Point3d, UNIT};

fn p(x: i64, y: i64) -> Point2d {
    Point2d { x, y }
}

#[test]
fn neighbor_map_scenario() {
    let sites = vec![p(0, 0), p(UNIT, 0), p(0, UNIT), p(10 * UNIT, 10 * UNIT)];
    let cutoff = 3 * UNIT / 2;
    let map = NearestNeighborMap::first_2d(&sites, cutoff);
    assert_eq!(map.neighbors[3], Vec::<usize>::new());
    assert_eq!(map.neighbors[0], vec![1, 2]);
    assert_eq!(map.neighbors[1], vec![0, 2]);
    assert_eq!(map.neighbors[2], vec![0, 1]);
}

#[test]
fn neighbor_map_is_strict_and_symmetric() {
    let mut sites = Vec::new();
    let mut seed: u64 = 7;
    for _ in 0..60 {
        seed = seed.wrapping_mul(6364136223846793005).wrapping_add(1442695040888963407);
        let x = ((seed >> 33) % 400) as i64;
        seed = seed.wrapping_mul(6364136223846793005).wrapping_add(1442695040888963407);
        let y = ((seed >> 33) % 400) as i64;
        sites.push(p(x, y));
    }
    sites.push(p(0, 0));
    sites.push(p(50, 0));
    let map = NearestNeighborMap::first_2d(&sites, 50);
    let n = sites.len();
    for i in 0..n {
        for j in 0..n {
            assert_eq!(map.neighbors[i].contains(&j), map.neighbors[j].contains(&i));
            let d2 = sites[i].distance_squared_to(&sites[j]);
            assert_eq!(map.neighbors[i].contains(&j), i != j && d2 < 2500);
        }
    }
    assert!(!map.neighbors[n - 1].contains(&(n - 2)));
}

#[test]
fn empty_and_non_positive_cutoff() {
    let map = NearestNeighborMap::first_2d(&[], 10);
    assert!(map.neighbors.is_empty());
    let map = NearestNeighborMap::first_2d(&[p(0, 0), p(0, 0)], 0);
    assert_eq!(map.neighbors, vec![Vec::<usize>::new(), Vec::new()]);
}

#[test]
fn neighbor_map_in_space() {
    let sites = vec![
        Point3d { x: 0, y: 0, z: 0 },
        Point3d { x: 0, y: 0, z: 2 },
        Point3d { x: 0, y: 0, z: 5 },
    ];
    let map = NearestNeighborMap::first_3d(&sites, 4);
    assert_eq!(map.neighbors, vec![vec![1], vec![0, 2], vec![1]]);
}

#[test]
fn second_order_neighbors() {
    let first = NearestNeighborMap {
        neighbors: vec![vec![1], vec![0, 2], vec![1, 3], vec![2]],
    };
    let second = NearestNeighborMap::second(&first);
    assert_eq!(second.neighbors, vec![vec![2], vec![3], vec![0], vec![1]]);
}

#[test]
fn second_order_neighbors_are_deduplicated() {
    let first = NearestNeighborMap {
        neighbors: vec![vec![1, 2], vec![0, 3], vec![0, 3], vec![1, 2]],
    };
    let second = NearestNeighborMap::second(&first);
    assert_eq!(second.neighbors, vec![vec![3], vec![2], vec![1], vec![0]]);
}

#[test]
fn adjacency_matrix_marks_neighbors() {
    let first = NearestNeighborMap { neighbors: vec![vec![1], vec![0, 2], vec![1]] };
    let m = AdjacencyMatrix::from(&first);
    assert_eq!(m.m, vec![vec![0, 1, 0], vec![1, 0, 1], vec![0, 1, 0]]);
}
