use mission_core::geo::{euclidean_distance, Point};
use mission_core::routes::{
    brute_force, find_minimal_pair, nearest_neighbor, search_long_distance,
};

fn pt(x: i64, y: i64) -> Point {
    Point { x, y }
}

fn chain_length(route: &[Point]) -> u64 {
    let mut total = 0;
    for w in route.windows(2) {
        total += euclidean_distance(&w[0], &w[1]);
    }
    total
}

#[test]
fn nearest_neighbor_two_points() {
    let route = nearest_neighbor(vec![pt(10, 0), pt(10, 10)], pt(0, 0)).expect("non-empty input");
    assert_eq!(route, vec![pt(0, 0), pt(10, 0), pt(10, 10), pt(0, 0)]);
}

#[test]
fn nearest_neighbor_rejects_empty_input() {
    let r = nearest_neighbor(Vec::new(), pt(0, 0));
    assert_eq!(r.unwrap_err(), "The input points must not be empty.");
}

#[test]
fn nearest_neighbor_breaks_ties_by_first_encountered() {
    // both candidates are at distance 10; the first one in the input wins
    let route = nearest_neighbor(vec![pt(10, 0), pt(-10, 0)], pt(0, 0)).expect("non-empty input");
    assert_eq!(route[1], pt(10, 0));
    assert_eq!(route[2], pt(-10, 0));
}

#[test]
fn brute_force_empty_input_gives_empty_route() {
    let route = brute_force(Vec::new(), pt(0, 0));
    assert!(route.is_empty());
}

#[test]
fn brute_force_matches_greedy_on_right_triangle() {
    // on this input the greedy route is optimal and both total 12
    let points = vec![pt(3, 0), pt(3, 4)];
    let start = pt(0, 0);
    let exact = brute_force(points.clone(), start);
    let greedy = nearest_neighbor(points, start).expect("non-empty input");
    assert_eq!(chain_length(&exact), 12);
    assert_eq!(chain_length(&exact), chain_length(&greedy));
}

#[test]
fn brute_force_no_worse_than_any_permutation() {
    let points = vec![pt(0, 10), pt(40, 0), pt(5, 5), pt(30, 20)];
    let start = pt(0, 0);
    let tour = brute_force(points.clone(), start);
    assert_eq!(tour.len(), points.len() + 2);
    assert_eq!(tour[0], start);
    assert_eq!(tour[tour.len() - 1], start);
    let best = chain_length(&tour);

    // check against every permutation of the four points
    let idx = [0usize, 1, 2, 3];
    let mut perms: Vec<Vec<usize>> = Vec::new();
    for &a in &idx {
        for &b in &idx {
            for &c in &idx {
                for &d in &idx {
                    let p = vec![a, b, c, d];
                    let mut seen = [false; 4];
                    for &v in &p {
                        seen[v] = true;
                    }
                    if seen.iter().all(|&s| s) {
                        perms.push(p);
                    }
                }
            }
        }
    }
    assert_eq!(perms.len(), 24);
    for perm in perms {
        let mut route = vec![start];
        for &k in &perm {
            route.push(points[k]);
        }
        route.push(start);
        assert!(best <= chain_length(&route));
    }
}

#[test]
fn brute_force_picks_the_short_tour() {
    // a square: the optimal closed tour walks the perimeter, length 40
    let points = vec![pt(10, 0), pt(10, 10), pt(0, 10)];
    let tour = brute_force(points, pt(0, 0));
    assert_eq!(chain_length(&tour), 40);
}

#[test]
fn search_long_distance_finds_the_farthest() {
    let d = search_long_distance(vec![pt(3, 4), pt(1, 1), pt(0, 2)], pt(0, 0))
        .expect("non-empty input");
    assert_eq!(d, 5);
}

#[test]
fn search_long_distance_rejects_empty_input() {
    let r = search_long_distance(Vec::new(), pt(0, 0));
    assert_eq!(r.unwrap_err(), "No points provided");
}

#[test]
fn find_minimal_pair_picks_nearest_cells() {
    let left = vec![pt(0, 0), pt(0, 10)];
    let right = vec![pt(20, 10), pt(20, 30)];
    let (a, b) = find_minimal_pair(&left, &right).expect("both lists non-empty");
    assert_eq!(a, pt(0, 10));
    assert_eq!(b, pt(20, 10));
}

#[test]
fn find_minimal_pair_breaks_ties_by_scan_order() {
    // all four pairs are at the same distance; the first scanned pair wins
    let left = vec![pt(0, 0), pt(0, 2)];
    let right = vec![pt(10, 0), pt(10, 2)];
    let (a, b) = find_minimal_pair(&left, &right).expect("both lists non-empty");
    assert_eq!(a, pt(0, 0));
    assert_eq!(b, pt(10, 0));
}

#[test]
fn find_minimal_pair_requires_both_lists() {
    assert!(find_minimal_pair(&Vec::new(), &vec![pt(1, 1)]).is_none());
    assert!(find_minimal_pair(&vec![pt(1, 1)], &Vec::new()).is_none());
}
