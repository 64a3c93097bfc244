use mission_core::geo::Point;
use mission_core::mst::{boruvka_mst, find, union_set};
use mission_core::regions::{
    find_direction, insert_route_after, rectangles_shortest_path, rectangular_areas,
    serpentine_path, Direction,
};
use mission_core::rotation::Rotation;

fn pt(x: i64, y: i64) -> Point {
    Point { x, y }
}

/// A width x height grid of cells spaced 10 apart, with its lower-left
/// cell at (x0, y0).  Outer index = column, inner = row.
fn grid(x0: i64, y0: i64, width: usize, height: usize) -> Vec<Vec<Point>> {
    let mut cols = Vec::new();
    for c in 0..width {
        let mut col = Vec::new();
        for r in 0..height {
            col.push(pt(x0 + 10 * c as i64, y0 + 10 * r as i64));
        }
        cols.push(col);
    }
    cols
}

#[test]
fn direction_opposite_is_an_involution() {
    let all = [
        Direction::U,
        Direction::D,
        Direction::L,
        Direction::R,
        Direction::UL,
        Direction::UR,
        Direction::DL,
        Direction::DR,
    ];
    for d in all {
        assert_eq!(d.opposite().opposite(), d);
    }
    assert_eq!(Direction::U.opposite(), Direction::D);
    assert_eq!(Direction::L.opposite(), Direction::R);
    assert_eq!(Direction::UL.opposite(), Direction::DR);
    assert_eq!(Direction::UR.opposite(), Direction::DL);
}

#[test]
fn direction_classifies_box_placement() {
    // box a: left 0, top 10, right 10, bottom 0
    let a = (pt(0, 10), pt(10, 0));
    // b strictly to the right
    let b_right = (pt(20, 10), pt(30, 0));
    assert_eq!(find_direction(a, b_right), Direction::R);
    // b strictly above
    let b_up = (pt(0, 30), pt(10, 20));
    assert_eq!(find_direction(a, b_up), Direction::U);
    // b up and to the right
    let b_ur = (pt(20, 30), pt(30, 20));
    assert_eq!(find_direction(a, b_ur), Direction::UR);
}

#[test]
fn gap_between_boxes() {
    let a = (pt(0, 10), pt(10, 0));
    let b_right = (pt(25, 10), pt(35, 0));
    let (w, d) = rectangles_shortest_path(a, b_right);
    assert_eq!(d, Direction::R);
    assert_eq!(w, 15);
    // diagonal gap: nearest corners are (10, 10) and (13, 14), distance 5
    let b_ur = (pt(13, 24), pt(23, 14));
    let (w2, d2) = rectangles_shortest_path(a, b_ur);
    assert_eq!(d2, Direction::UR);
    assert_eq!(w2, 5);
}

#[test]
fn serpentine_covers_a_three_by_two_grid() {
    let region = grid(0, 0, 3, 2);
    let path = serpentine_path(&region);
    // bottom row left to right, right column up, then the coil tail
    assert_eq!(
        path,
        vec![pt(0, 0), pt(10, 0), pt(20, 0), pt(20, 10), pt(10, 10), pt(0, 10)]
    );
}

#[test]
fn serpentine_covers_a_four_by_three_grid_once() {
    let region = grid(0, 0, 4, 3);
    let path = serpentine_path(&region);
    assert_eq!(path.len(), 12);
    let mut sorted = path.clone();
    sorted.sort_by_key(|p| (p.x, p.y));
    sorted.dedup();
    assert_eq!(sorted.len(), 12);
}

#[test]
fn serpentine_flattens_a_single_column() {
    let region = grid(0, 0, 1, 3);
    let path = serpentine_path(&region);
    assert_eq!(path, vec![pt(0, 0), pt(0, 10), pt(0, 20)]);
}

#[test]
fn splice_rotates_the_detour_into_place() {
    let mut route = vec![pt(0, 0), pt(1, 0), pt(2, 0)];
    let segment = vec![pt(10, 0), pt(11, 0), pt(12, 0)];
    let ok = insert_route_after(&mut route, &segment, pt(11, 0), pt(1, 0));
    assert!(ok);
    assert_eq!(
        route,
        vec![pt(0, 0), pt(1, 0), pt(11, 0), pt(12, 0), pt(10, 0), pt(2, 0)]
    );
}

#[test]
fn splice_reports_missing_anchors() {
    let mut route = vec![pt(0, 0)];
    let segment = vec![pt(10, 0)];
    assert!(!insert_route_after(&mut route, &segment, pt(99, 99), pt(0, 0)));
    assert_eq!(route, vec![pt(0, 0)]);
}

#[test]
fn boruvka_yields_a_spanning_tree() {
    // a complete graph over four regions with hand-picked weights
    let n = 4;
    let mut weights: Vec<Vec<Option<(i64, Direction)>>> = vec![vec![None; n]; n];
    let edges = [
        (0, 1, 5),
        (0, 2, 9),
        (0, 3, 4),
        (1, 2, 2),
        (1, 3, 6),
        (2, 3, 8),
    ];
    for &(u, v, w) in &edges {
        weights[u][v] = Some((w, Direction::R));
        weights[v][u] = Some((w, Direction::L));
    }
    let tree = boruvka_mst(&weights);
    assert_eq!(tree.len(), n);
    let degree_sum: usize = tree.iter().map(|adj| adj.len()).sum();
    assert_eq!(degree_sum, 2 * (n - 1));
    // adjacency is symmetric
    for u in 0..n {
        for &v in &tree[u] {
            assert!(tree[v].contains(&u));
        }
    }
    // with these weights the minimum tree is 0-3, 0-1, 1-2
    assert!(tree[1].contains(&2));
    assert!(tree[0].contains(&3));
    assert!(tree[0].contains(&1));
}

#[test]
fn union_find_merges_sets() {
    let mut parent: Vec<usize> = (0..4).collect();
    let mut rank: Vec<usize> = vec![0; 4];
    union_set(&mut parent, &mut rank, 0, 1);
    union_set(&mut parent, &mut rank, 2, 3);
    assert_eq!(find(&mut parent, 0), find(&mut parent, 1));
    assert_eq!(find(&mut parent, 2), find(&mut parent, 3));
    assert_ne!(find(&mut parent, 0), find(&mut parent, 3));
    union_set(&mut parent, &mut rank, 1, 2);
    assert_eq!(find(&mut parent, 0), find(&mut parent, 3));
}

#[test]
fn rectangular_areas_rejects_empty_input() {
    let r = rectangular_areas(Vec::new(), pt(0, 0), Rotation::identity());
    assert_eq!(r.unwrap_err(), "The input points must not be empty.");
}

#[test]
fn rectangular_areas_rejects_jagged_regions() {
    // second column is taller than the first
    let jagged = vec![vec![vec![pt(0, 0)], vec![pt(10, 0), pt(10, 10)]]];
    let r = rectangular_areas(jagged, pt(0, 0), Rotation::identity());
    assert_eq!(r.unwrap_err(), "Input vector is not rectangular.");
}

#[test]
fn rectangular_areas_rejects_overlapping_regions() {
    let a = grid(0, 0, 2, 2);
    let b = grid(5, 5, 2, 2);
    let r = rectangular_areas(vec![a, b], pt(0, 0), Rotation::identity());
    assert_eq!(r.unwrap_err(), "The rectangles are intersecting.");
}

#[test]
fn rectangular_areas_combines_two_regions() {
    let a = grid(0, 0, 2, 2);
    let b = grid(100, 0, 2, 2);
    let route =
        rectangular_areas(vec![a.clone(), b.clone()], pt(-5, 0), Rotation::identity())
            .expect("two disjoint rectangles");
    // every cell of both regions, one closing point, one start point
    assert_eq!(route.len(), 4 + 4 + 2);
    assert!(route.contains(&pt(-5, 0)));
    for col in a.iter().chain(b.iter()) {
        for cell in col {
            assert!(route.contains(cell));
        }
    }
}

#[test]
fn rectangular_areas_route_is_a_closed_loop_around_the_start() {
    let a = grid(0, 0, 2, 2);
    let route = rectangular_areas(vec![a], pt(50, 50), Rotation::identity())
        .expect("one rectangle");
    // removing the single start point leaves a loop that begins and ends
    // at the same cell
    let k = route.iter().position(|&p| p == pt(50, 50)).expect("start present");
    let mut loop_route = route.clone();
    loop_route.remove(k);
    assert_eq!(loop_route.first(), loop_route.last());
}

#[test]
fn rectangular_areas_single_region_closes_on_itself() {
    let a = grid(0, 0, 2, 2);
    let route = rectangular_areas(vec![a], pt(0, -20), Rotation::identity())
        .expect("one rectangle");
    // four cells, the repeated closing point, and the start point
    assert_eq!(route.len(), 6);
    assert!(route.contains(&pt(0, -20)));
}
