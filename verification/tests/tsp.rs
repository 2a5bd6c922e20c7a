use tsp::matrix::{distance, init_distance_matrix, make_key, DistanceMatrix};
use tsp::points::generate_points;
use tsp::solver::held_karp;

fn square_matrix() -> DistanceMatrix {
    let points: Vec<(u32, u32)> = vec![(0, 0), (10, 0), (10, 10), (0, 10)];
    init_distance_matrix(&points)
}

fn check_tour_shape(path: &[u16], n: u16) {
    assert_eq!(path.len(), n as usize + 1);
    assert_eq!(path[0], 0);
    assert_eq!(path[n as usize], 0);
    let mut seen = vec![false; n as usize];
    for &c in &path[..n as usize] {
        assert!((c as usize) < n as usize);
        assert!(!seen[c as usize], "city visited twice");
        seen[c as usize] = true;
    }
    assert!(seen.iter().all(|&s| s), "city never visited");
}

fn path_edge_sum(m: &DistanceMatrix, path: &[u16]) -> u64 {
    let mut sum: u64 = 0;
    for w in path.windows(2) {
        sum += m.get(w[0], w[1]) as u64;
    }
    sum
}

#[test]
fn make_key_orders_pairs() {
    assert_eq!(make_key(3, 1), (1, 3));
    assert_eq!(make_key(1, 3), (1, 3));
    assert_eq!(make_key(2, 2), (2, 2));
}

#[test]
fn distance_is_squared_euclidean() {
    assert_eq!(distance((0, 0), (3, 4)), 25);
    assert_eq!(distance((3, 4), (0, 0)), 25);
    assert_eq!(distance((10, 0), (0, 0)), 100);
    assert_eq!(distance((7, 7), (7, 7)), 0);
}

#[test]
fn matrix_is_symmetric_and_positive() {
    let points: Vec<(u32, u32)> = vec![(0, 0), (10, 0), (10, 10), (3, 4)];
    let m = init_distance_matrix(&points);
    for i in 0..4u16 {
        for j in 0..4u16 {
            assert_eq!(m.get(i, j), m.get(j, i));
            if i != j {
                assert!(m.get(i, j) > 0);
            }
        }
    }
    assert_eq!(m.get(0, 3), 25);
    assert_eq!(m.get(3, 0), 25);
}

#[test]
fn matrix_diagonal_is_zero() {
    let points: Vec<(u32, u32)> = vec![(1, 2), (3, 4), (5, 6)];
    let m = init_distance_matrix(&points);
    for i in 0..3u16 {
        assert_eq!(m.get(i, i), 0);
    }
}

#[test]
fn no_cities_is_degenerate() {
    let points: Vec<(u32, u32)> = vec![];
    let m = init_distance_matrix(&points);
    let (cost, path) = held_karp(&m, 0);
    assert_eq!(cost, 0);
    assert!(path.is_empty());
}

#[test]
fn single_city_is_trivial() {
    let points: Vec<(u32, u32)> = vec![(5, 5)];
    let m = init_distance_matrix(&points);
    let (cost, path) = held_karp(&m, 1);
    assert_eq!(cost, 0);
    assert_eq!(path, vec![0]);
}

#[test]
fn two_cities_bounce() {
    let points: Vec<(u32, u32)> = vec![(0, 0), (3, 4)];
    let m = init_distance_matrix(&points);
    let (cost, path) = held_karp(&m, 2);
    assert_eq!(path, vec![0, 1, 0]);
    assert_eq!(cost, 2 * m.get(0, 1) as u64);
    assert_eq!(cost, 50);
}

#[test]
fn square_perimeter_tour() {
    let m = square_matrix();
    let (cost, path) = held_karp(&m, 4);
    assert_eq!(cost, 400);
    check_tour_shape(&path, 4);
    // The optimal cycle walks the perimeter: every edge has squared
    // length 100, never a diagonal.
    for w in path.windows(2) {
        assert_eq!(m.get(w[0], w[1]), 100);
    }
}

#[test]
fn cost_equals_edge_sum() {
    let points: Vec<(u32, u32)> = vec![(0, 0), (13, 2), (5, 9), (2, 11), (14, 14), (9, 1)];
    let m = init_distance_matrix(&points);
    let (cost, path) = held_karp(&m, 6);
    check_tour_shape(&path, 6);
    assert_eq!(cost, path_edge_sum(&m, &path));
}

#[test]
fn cost_is_deterministic() {
    let points: Vec<(u32, u32)> = vec![(0, 0), (8, 3), (2, 7), (11, 11), (6, 0)];
    let m = init_distance_matrix(&points);
    let (c1, _) = held_karp(&m, 5);
    let (c2, _) = held_karp(&m, 5);
    assert_eq!(c1, c2);
}

#[test]
fn degenerate_placement_always_succeeds() {
    let mut rng = rand::thread_rng();
    // No city needs no draw, so even a zero-sized grid works.
    let empty = generate_points(0, 0, 0, &mut rng).expect("empty placement failed");
    assert!(empty.is_empty());
    // A single city's first draw can never collide.
    let one = generate_points(1, 1, 1, &mut rng).expect("single placement failed");
    assert_eq!(one, vec![(0, 0)]);
}

#[test]
fn generated_points_are_distinct() {
    let mut rng = rand::thread_rng();
    // A tight grid forces the rejection sampling to actually reject.
    let points = generate_points(30, 10, 10, &mut rng).expect("placement failed");
    assert_eq!(points.len(), 30);
    for (i, &(x, y)) in points.iter().enumerate() {
        assert!(x < 10 && y < 10);
        for &other in &points[..i] {
            assert_ne!((x, y), other);
        }
    }
}

fn nearest_neighbor_cost(m: &DistanceMatrix, n: u16) -> u64 {
    let mut visited = vec![false; n as usize];
    visited[0] = true;
    let mut at: u16 = 0;
    let mut total: u64 = 0;
    for _ in 1..n {
        let mut best: Option<(u16, u32)> = None;
        for c in 0..n {
            if !visited[c as usize] {
                let d = m.get(at, c);
                if best.map_or(true, |(_, bd)| d < bd) {
                    best = Some((c, d));
                }
            }
        }
        let (c, d) = best.unwrap();
        visited[c as usize] = true;
        total += d as u64;
        at = c;
    }
    total + m.get(at, 0) as u64
}

#[test]
fn optimal_beats_nearest_neighbor() {
    let mut rng = rand::thread_rng();
    for n in 8u16..=12 {
        let points = generate_points(n, 200, 200, &mut rng).expect("placement failed");
        let m = init_distance_matrix(&points);
        let (cost, path) = held_karp(&m, n);
        check_tour_shape(&path, n);
        assert_eq!(cost, path_edge_sum(&m, &path));
        assert!(cost <= nearest_neighbor_cost(&m, n));
    }
}
