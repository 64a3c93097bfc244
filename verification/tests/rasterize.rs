use mission_core::geo::Point;
use mission_core::raster::{discretize_area, is_inside_polygon};
use mission_core::rotation::Rotation;

fn pt(x: i64, y: i64) -> Point {
    Point { x, y }
}

fn square(side: i64) -> Vec<Point> {
    vec![pt(0, 0), pt(side, 0), pt(side, side), pt(0, side)]
}

#[test]
fn discretize_unit_square_two_by_two() {
    // a 10x10 area tiled with 5x5 cells, all coordinates doubled so the
    // half-cell centres stay integral: expect a 2x2 grid of centres
    let polygons = vec![square(20)];
    let grid = discretize_area(polygons, 10, 10, Rotation::identity(), false)
        .expect("rasterizing always succeeds");
    assert_eq!(grid.len(), 1);
    assert_eq!(grid[0].len(), 3);
    let mut centers: Vec<Point> = grid[0].iter().flatten().copied().collect();
    centers.sort_by_key(|p| (p.x, p.y));
    // the span is 20, so bins start at 0, 10 and 20; the trailing bin
    // holds centres just past the boundary
    assert!(centers.contains(&pt(5, 5)));
    assert!(centers.contains(&pt(5, 15)));
    assert!(centers.contains(&pt(15, 5)));
    assert!(centers.contains(&pt(15, 15)));
}

#[test]
fn discretize_checks_polygon_membership() {
    // with the inside check on, cells whose corners all fall outside the
    // polygon are dropped
    let polygons = vec![square(20)];
    let all = discretize_area(polygons.clone(), 10, 10, Rotation::identity(), false)
        .expect("rasterizing always succeeds");
    let kept = discretize_area(polygons, 10, 10, Rotation::identity(), true)
        .expect("rasterizing always succeeds");
    let count_all: usize = all[0].iter().map(|col| col.len()).sum();
    let count_kept: usize = kept[0].iter().map(|col| col.len()).sum();
    assert!(count_kept <= count_all);
    assert!(count_kept >= 4);
}

#[test]
fn discretize_degenerate_span_keeps_one_cell() {
    // three almost-collinear points spanning a single cell
    let polygons = vec![vec![pt(0, 0), pt(2, 0), pt(1, 1)]];
    let grid = discretize_area(polygons, 10, 10, Rotation::identity(), false)
        .expect("rasterizing always succeeds");
    assert_eq!(grid.len(), 1);
    assert_eq!(grid[0].len(), 1);
    assert_eq!(grid[0][0].len(), 1);
    assert_eq!(grid[0][0][0], pt(5, 5));
}

#[test]
fn discretize_with_rotated_heading() {
    // a 45-degree heading: the square's rotated bounding box grows, but
    // every kept centre still restores to world coordinates near the area
    let rot = Rotation::new(46341, 46341).expect("a valid unit heading");
    let polygons = vec![square(1000)];
    let grid = discretize_area(polygons, 400, 400, rot, false)
        .expect("rasterizing always succeeds");
    let centers: Vec<Point> = grid[0].iter().flatten().copied().collect();
    assert!(centers.len() >= 4);
    for c in centers {
        assert!(c.x.abs() <= 3000 && c.y.abs() <= 3000);
    }
}

#[test]
fn point_in_polygon_even_odd() {
    let poly = square(10);
    assert!(is_inside_polygon(pt(5, 5), &poly));
    assert!(is_inside_polygon(pt(1, 9), &poly));
    assert!(!is_inside_polygon(pt(15, 5), &poly));
    assert!(!is_inside_polygon(pt(-1, 5), &poly));
    assert!(!is_inside_polygon(pt(5, 11), &poly));
}

#[test]
fn point_in_concave_polygon() {
    // a U shape: outside the notch, inside the arms
    let poly = vec![
        pt(0, 0),
        pt(30, 0),
        pt(30, 30),
        pt(20, 30),
        pt(20, 10),
        pt(10, 10),
        pt(10, 30),
        pt(0, 30),
    ];
    assert!(is_inside_polygon(pt(5, 20), &poly));
    assert!(is_inside_polygon(pt(25, 20), &poly));
    assert!(!is_inside_polygon(pt(15, 20), &poly));
    assert!(is_inside_polygon(pt(15, 5), &poly));
}
