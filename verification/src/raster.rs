//! Polygon rasterizer: tiles the rotated bounding box of each polygon with
//! photo-sized cells and keeps the cell centres, optionally only where a
//! cell corner lies inside the polygon under the even-odd rule.

use vstd::arithmetic::div_mod::{lemma_fundamental_div_mod, lemma_mod_division_less_than_divisor};
use vstd::prelude::*;

use crate::geo::{in_world_range, Point};
use crate::rotation::{restore_point, rotate_point, rotation_wf, Rotation};

verus! {

/// Largest accepted photo-cell width or height.
pub const MAX_CELL: i64 = 2097152;

/// Index of the vertex preceding `i` in a closed ring of `n` vertices.
pub open spec fn prev_idx(i: int, n: int) -> int {
    if i == 0 {
        n - 1
    } else {
        i - 1
    }
}

/// Whether the horizontal ray going left from `p` crosses the polygon edge
/// from `a` to `b`.  This is the standard even-odd crossing test, written
/// multiplicatively: the edge straddles the horizontal through `p`, and `p`
/// lies on the lesser-x side of the edge's crossing point.  The first
/// conjunct forces `a.y != b.y`, so the test is total.
pub open spec fn edge_crosses(p: Point, a: Point, b: Point) -> bool {
    &&& (a.y > p.y) != (b.y > p.y)
    &&& if b.y - a.y > 0 {
        (p.x - a.x) * (b.y - a.y) < (b.x - a.x) * (p.y - a.y)
    } else {
        (p.x - a.x) * (b.y - a.y) > (b.x - a.x) * (p.y - a.y)
    }
}

/// Parity of ray crossings over the first `i` edges of the ring, each edge
/// running from vertex `k` back to its predecessor.
pub open spec fn crossings_before(poly: Seq<Point>, p: Point, i: int) -> bool
    decreases i,
{
    if i <= 0 {
        false
    } else {
        crossings_before(poly, p, i - 1) != edge_crosses(
            p,
            poly[i - 1],
            poly[prev_idx(i - 1, poly.len() as int)],
        )
    }
}

/// Even-odd (crossing-number) point-in-polygon rule.
pub open spec fn inside_polygon(poly: Seq<Point>, p: Point) -> bool {
    crossings_before(poly, p, poly.len() as int)
}

/// Every vertex lies inside the heading-frame coordinate range.
pub open spec fn all_in_frame_range(s: Seq<Point>) -> bool {
    forall|i: int| 0 <= i < s.len() ==> crate::rotation::in_frame_range(#[trigger] s[i])
}

/// Every point of the sequence lies inside the world coordinate range.
pub open spec fn all_in_world_range(s: Seq<Point>) -> bool {
    forall|i: int| 0 <= i < s.len() ==> in_world_range(#[trigger] s[i])
}

/// Minimum x over the first `i` vertices (at least one).
pub open spec fn min_x_up_to(s: Seq<Point>, i: int) -> int
    decreases i,
{
    if i <= 1 {
        s[0].x as int
    } else {
        let m = min_x_up_to(s, i - 1);
        if s[i - 1].x < m {
            s[i - 1].x as int
        } else {
            m
        }
    }
}

/// Maximum x over the first `i` vertices (at least one).
pub open spec fn max_x_up_to(s: Seq<Point>, i: int) -> int
    decreases i,
{
    if i <= 1 {
        s[0].x as int
    } else {
        let m = max_x_up_to(s, i - 1);
        if s[i - 1].x > m {
            s[i - 1].x as int
        } else {
            m
        }
    }
}

/// Minimum y over the first `i` vertices (at least one).
pub open spec fn min_y_up_to(s: Seq<Point>, i: int) -> int
    decreases i,
{
    if i <= 1 {
        s[0].y as int
    } else {
        let m = min_y_up_to(s, i - 1);
        if s[i - 1].y < m {
            s[i - 1].y as int
        } else {
            m
        }
    }
}

/// Maximum y over the first `i` vertices (at least one).
pub open spec fn max_y_up_to(s: Seq<Point>, i: int) -> int
    decreases i,
{
    if i <= 1 {
        s[0].y as int
    } else {
        let m = max_y_up_to(s, i - 1);
        if s[i - 1].y > m {
            s[i - 1].y as int
        } else {
            m
        }
    }
}

/// The running minimum never exceeds the running maximum, and both stay
/// within the coordinate range of the vertices.
pub proof fn lemma_minmax_bounds(s: Seq<Point>, i: int, b: int)
    requires
        1 <= i <= s.len(),
        forall|k: int| 0 <= k < s.len() ==> -b <= (#[trigger] s[k]).x <= b && -b <= s[k].y <= b,
    ensures
        min_x_up_to(s, i) <= max_x_up_to(s, i),
        min_y_up_to(s, i) <= max_y_up_to(s, i),
        -b <= min_x_up_to(s, i) <= b,
        -b <= max_x_up_to(s, i) <= b,
        -b <= min_y_up_to(s, i) <= b,
        -b <= max_y_up_to(s, i) <= b,
    decreases i,
{
    if i > 1 {
        lemma_minmax_bounds(s, i - 1, b);
    }
}

/// Lower-left corner of grid cell `(i, j)` in the heading frame.
pub open spec fn cell_corner(minx: int, miny: int, w: int, h: int, i: int, j: int) -> Point {
    Point { x: (minx + i * w) as i64, y: (miny + j * h) as i64 }
}

/// Centre of grid cell `(i, j)` in the heading frame.  With integer
/// coordinates the half-cell offset rounds down.
pub open spec fn cell_center(minx: int, miny: int, w: int, h: int, i: int, j: int) -> Point {
    Point { x: (minx + i * w + w / 2) as i64, y: (miny + j * h + h / 2) as i64 }
}

/// Whether cell `(i, j)` is kept: some corner of the cell lies inside the
/// polygon (in the heading frame).
pub open spec fn cell_kept(tpoly: Seq<Point>, minx: int, miny: int, w: int, h: int, i: int, j: int) -> bool {
    ||| inside_polygon(tpoly, cell_corner(minx, miny, w, h, i, j))
    ||| inside_polygon(tpoly, cell_corner(minx + w, miny, w, h, i, j))
    ||| inside_polygon(tpoly, cell_corner(minx, miny + h, w, h, i, j))
    ||| inside_polygon(tpoly, cell_corner(minx + w, miny + h, w, h, i, j))
}

/// The centres kept in grid column `i`, scanning the first `j` rows: each
/// kept centre restored to world coordinates.
pub open spec fn kept_column(
    tpoly: Seq<Point>,
    rot: Rotation,
    minx: int,
    miny: int,
    w: int,
    h: int,
    i: int,
    j: int,
    check: bool,
) -> Seq<Point>
    decreases j,
{
    if j <= 0 {
        Seq::empty()
    } else {
        kept_column(tpoly, rot, minx, miny, w, h, i, j - 1, check) + (if !check || cell_kept(
            tpoly,
            minx,
            miny,
            w,
            h,
            i,
            j - 1,
        ) {
            seq![restore_point(rot, cell_center(minx, miny, w, h, i, j - 1))]
        } else {
            Seq::empty()
        })
    }
}

/// The first `i` columns of the kept-centre grid, each column scanning
/// `nh` rows.
pub open spec fn kept_grid(
    tpoly: Seq<Point>,
    rot: Rotation,
    minx: int,
    miny: int,
    w: int,
    h: int,
    i: int,
    nh: int,
    check: bool,
) -> Seq<Seq<Point>>
    decreases i,
{
    if i <= 0 {
        Seq::empty()
    } else {
        kept_grid(tpoly, rot, minx, miny, w, h, i - 1, nh, check) + seq![
            kept_column(tpoly, rot, minx, miny, w, h, i - 1, nh, check),
        ]
    }
}

/// The vertices of `poly` rotated into the heading frame.
pub open spec fn transformed_polygon(poly: Seq<Point>, rot: Rotation) -> Seq<Point> {
    poly.map_values(|p: Point| rotate_point(rot, p))
}

/// Number of cells along one axis: `floor(span / size) + 1`, so even a
/// degenerate zero span yields one cell.
pub open spec fn cell_count(span: int, size: int) -> int {
    span / size + 1
}

/// The grid of kept cell centres for one polygon: columns indexed by x
/// bins, rows by y bins, over the bounding box of the rotated polygon.
pub open spec fn discretized_polygon(
    poly: Seq<Point>,
    w: int,
    h: int,
    rot: Rotation,
    check: bool,
) -> Seq<Seq<Point>> {
    let t = transformed_polygon(poly, rot);
    let minx = min_x_up_to(t, t.len() as int);
    let maxx = max_x_up_to(t, t.len() as int);
    let miny = min_y_up_to(t, t.len() as int);
    let maxy = max_y_up_to(t, t.len() as int);
    kept_grid(t, rot, minx, miny, w, h, cell_count(maxx - minx, w), cell_count(maxy - miny, h), check)
}

/// Even-odd point-in-polygon test in the heading frame.
pub fn is_inside_polygon(point: Point, polygon: &Vec<Point>) -> (b: bool)
    requires
        polygon@.len() >= 1,
        all_in_frame_range(polygon@),
        crate::rotation::in_frame_range(point),
    ensures
        b == inside_polygon(polygon@, point),
{
    let mut inside = false;
    let len = polygon.len();
    let mut j = len - 1;
    let mut i: usize = 0;
    while i < len
        invariant
            0 <= i <= len,
            len == polygon@.len() >= 1,
            all_in_frame_range(polygon@),
            crate::rotation::in_frame_range(point),
            j == prev_idx(i as int, len as int),
            inside == crossings_before(polygon@, point, i as int),
        decreases len - i,
    {
        let a = polygon[i];
        let b = polygon[j];
        let straddles = (a.y > point.y) != (b.y > point.y);
        if straddles {
            proof {
                assert((point.x - a.x) * (b.y - a.y) <= 0x1000000000000 && (point.x - a.x) * (b.y
                    - a.y) >= -0x1000000000000 && (b.x - a.x) * (point.y - a.y) <= 0x1000000000000
                    && (b.x - a.x) * (point.y - a.y) >= -0x1000000000000) by (nonlinear_arith)
                    requires
                        -8388608 <= point.x <= 8388608,
                        -8388608 <= point.y <= 8388608,
                        -8388608 <= a.x <= 8388608,
                        -8388608 <= a.y <= 8388608,
                        -8388608 <= b.x <= 8388608,
                        -8388608 <= b.y <= 8388608;
            }
            let lhs = (point.x - a.x) * (b.y - a.y);
            let rhs = (b.x - a.x) * (point.y - a.y);
            let intersect = if b.y - a.y > 0 {
                lhs < rhs
            } else {
                lhs > rhs
            };
            if intersect {
                inside = !inside;
            }
        }
        j = i;
        i = i + 1;
    }
    inside
}

/// Rasterizes each polygon: rotate its vertices into the heading frame,
/// tile the bounding box with `photo_width` by `photo_height` cells, keep
/// each cell centre (every centre when `check_inside` is false, otherwise
/// only centres of cells with a corner inside the polygon), and restore
/// the kept centres to world coordinates.  The result holds, per polygon,
/// one sequence of kept centres per column of x bins.
pub fn discretize_area(
    polygons: Vec<Vec<Point>>,
    photo_width: i64,
    photo_height: i64,
    rotation: Rotation,
    check_inside: bool,
) -> (r: Result<Vec<Vec<Vec<Point>>>, String>)
    requires
        rotation_wf(rotation),
        1 <= photo_width <= MAX_CELL,
        1 <= photo_height <= MAX_CELL,
        forall|k: int| 0 <= k < polygons@.len() ==> (#[trigger] polygons@[k])@.len() >= 3,
        forall|k: int| 0 <= k < polygons@.len() ==> all_in_world_range((#[trigger] polygons@[k])@),
    ensures
        r is Ok,
        r matches Ok(g) ==> g@.len() == polygons@.len(),
        r matches Ok(g) ==> forall|k: int| 0 <= k < polygons@.len() ==> (#[trigger] g@[k]).deep_view()
            == discretized_polygon(polygons@[k]@, photo_width as int, photo_height as int, rotation, check_inside),
{
    let mut results: Vec<Vec<Vec<Point>>> = Vec::new();
    let mut pi: usize = 0;
    while pi < polygons.len()
        invariant
            0 <= pi <= polygons@.len(),
            rotation_wf(rotation),
            1 <= photo_width <= MAX_CELL,
            1 <= photo_height <= MAX_CELL,
            forall|k: int| 0 <= k < polygons@.len() ==> (#[trigger] polygons@[k])@.len() >= 3,
            forall|k: int|
                0 <= k < polygons@.len() ==> all_in_world_range((#[trigger] polygons@[k])@),
            results@.len() == pi,
            forall|k: int| 0 <= k < pi ==> (#[trigger] results@[k]).deep_view()
                == discretized_polygon(
                polygons@[k]@,
                photo_width as int,
                photo_height as int,
                rotation,
                check_inside,
            ),
        decreases polygons@.len() - pi,
    {
        let polygon = &polygons[pi];
        let ghost tspec = transformed_polygon(polygon@, rotation);

        // Rotate every vertex into the heading frame.
        let mut transformed: Vec<Point> = Vec::new();
        let mut vi: usize = 0;
        while vi < polygon.len()
            invariant
                0 <= vi <= polygon@.len(),
                rotation_wf(rotation),
                all_in_world_range(polygon@),
                tspec == transformed_polygon(polygon@, rotation),
                transformed@.len() == vi,
                forall|k: int| 0 <= k < vi ==> transformed@[k] == tspec[k],
                forall|k: int|
                    0 <= k < vi ==> -4194304 <= (#[trigger] transformed@[k]).x <= 4194304
                        && -4194304 <= transformed@[k].y <= 4194304,
            decreases polygon@.len() - vi,
        {
            let q = rotation.transform(polygon[vi]);
            transformed.push(q);
            vi = vi + 1;
        }
        proof {
            assert(transformed@ =~= tspec);
        }

        // Bounding box of the rotated polygon.
        let mut min_x = transformed[0].x;
        let mut max_x = transformed[0].x;
        let mut min_y = transformed[0].y;
        let mut max_y = transformed[0].y;
        let mut bi: usize = 1;
        while bi < transformed.len()
            invariant
                1 <= bi <= transformed@.len(),
                transformed@.len() >= 1,
                forall|k: int|
                    0 <= k < transformed@.len() ==> -4194304 <= (#[trigger] transformed@[k]).x
                        <= 4194304 && -4194304 <= transformed@[k].y <= 4194304,
                min_x == min_x_up_to(transformed@, bi as int),
                max_x == max_x_up_to(transformed@, bi as int),
                min_y == min_y_up_to(transformed@, bi as int),
                max_y == max_y_up_to(transformed@, bi as int),
                -4194304 <= min_x <= 4194304,
                -4194304 <= max_x <= 4194304,
                -4194304 <= min_y <= 4194304,
                -4194304 <= max_y <= 4194304,
            decreases transformed@.len() - bi,
        {
            let q = transformed[bi];
            if q.x < min_x {
                min_x = q.x;
            }
            if q.x > max_x {
                max_x = q.x;
            }
            if q.y < min_y {
                min_y = q.y;
            }
            if q.y > max_y {
                max_y = q.y;
            }
            bi = bi + 1;
        }
        proof {
            lemma_minmax_bounds(transformed@, transformed@.len() as int, 4194304);
        }

        // Cell counts along each axis.
        let span_x = (max_x - min_x) as u64;
        let span_y = (max_y - min_y) as u64;
        let count_w = span_x / (photo_width as u64) + 1;
        let count_h = span_y / (photo_height as u64) + 1;
        proof {
            lemma_fundamental_div_mod(span_x as int, photo_width as int);
            lemma_mod_division_less_than_divisor(span_x as int, photo_width as int);
            lemma_fundamental_div_mod(span_y as int, photo_height as int);
            lemma_mod_division_less_than_divisor(span_y as int, photo_height as int);
            lemma_fundamental_div_mod(photo_width as int, 2);
            lemma_mod_division_less_than_divisor(photo_width as int, 2);
            lemma_fundamental_div_mod(photo_height as int, 2);
            lemma_mod_division_less_than_divisor(photo_height as int, 2);
            assert(count_w == cell_count(max_x - min_x, photo_width as int));
            assert(count_h == cell_count(max_y - min_y, photo_height as int));
            assert((count_w - 1) * photo_width <= span_x) by (nonlinear_arith)
                requires
                    count_w - 1 == span_x as int / (photo_width as int),
                    span_x as int == (photo_width as int) * (span_x as int / (photo_width as int))
                        + (span_x as int % (photo_width as int)),
                    span_x as int % (photo_width as int) >= 0;
            assert((count_h - 1) * photo_height <= span_y) by (nonlinear_arith)
                requires
                    count_h - 1 == span_y as int / (photo_height as int),
                    span_y as int == (photo_height as int) * (span_y as int / (photo_height
                        as int)) + (span_y as int % (photo_height as int)),
                    span_y as int % (photo_height as int) >= 0;
            assert(count_w - 1 <= span_x) by (nonlinear_arith)
                requires (count_w - 1) * photo_width <= span_x, photo_width >= 1, count_w >= 1;
            assert(count_h - 1 <= span_y) by (nonlinear_arith)
                requires (count_h - 1) * photo_height <= span_y, photo_height >= 1, count_h >= 1;
        }

        let half_w = photo_width / 2;
        let half_h = photo_height / 2;

        let mut result: Vec<Vec<Point>> = Vec::new();
        let mut i: u64 = 0;
        while i < count_w
            invariant
                0 <= i <= count_w,
                rotation_wf(rotation),
                1 <= photo_width <= MAX_CELL,
                1 <= photo_height <= MAX_CELL,
                transformed@ == tspec,
                transformed@.len() >= 1,
                all_in_frame_range(transformed@),
                min_x == min_x_up_to(tspec, tspec.len() as int),
                min_y == min_y_up_to(tspec, tspec.len() as int),
                -4194304 <= min_x <= max_x <= 4194304,
                -4194304 <= min_y <= max_y <= 4194304,
                count_w == cell_count(max_x - min_x, photo_width as int),
                count_h == cell_count(max_y - min_y, photo_height as int),
                1 <= count_w <= 8388609,
                1 <= count_h <= 8388609,
                (count_w - 1) * photo_width <= max_x - min_x,
                (count_h - 1) * photo_height <= max_y - min_y,
                half_w == photo_width / 2,
                half_h == photo_height / 2,
                0 <= half_w <= photo_width,
                0 <= half_h <= photo_height,
                result@.len() == i,
                forall|k: int| 0 <= k < i ==> (#[trigger] result@[k])@ == kept_column(
                    tspec,
                    rotation,
                    min_x as int,
                    min_y as int,
                    photo_width as int,
                    photo_height as int,
                    k,
                    count_h as int,
                    check_inside,
                ),
            decreases count_w - i,
        {
            proof {
                assert(0 <= i * photo_width <= (count_w - 1) * photo_width) by (nonlinear_arith)
                    requires 0 <= i <= count_w - 1, photo_width >= 1;
            }
            let x = min_x + (i as i64) * photo_width;
            let mut line: Vec<Point> = Vec::new();
            let mut j: u64 = 0;
            while j < count_h
                invariant
                    0 <= j <= count_h,
                    0 <= i < count_w,
                    rotation_wf(rotation),
                    1 <= photo_width <= MAX_CELL,
                    1 <= photo_height <= MAX_CELL,
                    transformed@ == tspec,
                    transformed@.len() >= 1,
                    all_in_frame_range(transformed@),
                    min_x == min_x_up_to(tspec, tspec.len() as int),
                    min_y == min_y_up_to(tspec, tspec.len() as int),
                    -4194304 <= min_x <= max_x <= 4194304,
                    -4194304 <= min_y <= max_y <= 4194304,
                    1 <= count_h <= 8388609,
                    (count_h - 1) * photo_height <= max_y - min_y,
                    half_w == photo_width / 2,
                    half_h == photo_height / 2,
                    0 <= half_w <= photo_width,
                    0 <= half_h <= photo_height,
                    x == min_x + i * photo_width,
                    min_x <= x <= max_x,
                    line@ == kept_column(
                        tspec,
                        rotation,
                        min_x as int,
                        min_y as int,
                        photo_width as int,
                        photo_height as int,
                        i as int,
                        j as int,
                        check_inside,
                    ),
                decreases count_h - j,
            {
                proof {
                    assert(0 <= j * photo_height <= (count_h - 1) * photo_height)
                        by (nonlinear_arith)
                        requires 0 <= j <= count_h - 1, photo_height >= 1;
                }
                let y = min_y + (j as i64) * photo_height;
                let keep = if check_inside {
                    let c1 = is_inside_polygon(Point { x, y }, &transformed);
                    let c2 = is_inside_polygon(Point { x: x + photo_width, y }, &transformed);
                    let c3 = is_inside_polygon(Point { x, y: y + photo_height }, &transformed);
                    let c4 = is_inside_polygon(
                        Point { x: x + photo_width, y: y + photo_height },
                        &transformed,
                    );
                    c1 || c2 || c3 || c4
                } else {
                    true
                };
                let ghost pre_line = line@;
                let ghost minxi = min_x as int;
                let ghost minyi = min_y as int;
                let ghost pwi = photo_width as int;
                let ghost phi = photo_height as int;
                if keep {
                    let center = Point { x: x + half_w, y: y + half_h };
                    let restored = rotation.restore(center);
                    line.push(restored);
                    proof {
                        assert(center == cell_center(minxi, minyi, pwi, phi, i as int, j as int));
                    }
                }
                proof {
                    assert(Point { x, y } == cell_corner(minxi, minyi, pwi, phi, i as int, j as int));
                    assert(Point { x: (x + photo_width) as i64, y } == cell_corner(
                        minxi + pwi, minyi, pwi, phi, i as int, j as int));
                    assert(Point { x, y: (y + photo_height) as i64 } == cell_corner(
                        minxi, minyi + phi, pwi, phi, i as int, j as int));
                    assert(Point { x: (x + photo_width) as i64, y: (y + photo_height) as i64 }
                        == cell_corner(minxi + pwi, minyi + phi, pwi, phi, i as int, j as int));
                    if !keep {
                        assert(line@ =~= pre_line + Seq::<Point>::empty());
                    }
                    assert(line@ == kept_column(
                        tspec,
                        rotation,
                        minxi,
                        minyi,
                        pwi,
                        phi,
                        i as int,
                        j as int + 1,
                        check_inside,
                    ));
                }
                j = j + 1;
            }
            result.push(line);
            i = i + 1;
        }
        results.push(result);
        proof {
            assert(result.deep_view() =~= kept_grid(
                tspec,
                rotation,
                min_x as int,
                min_y as int,
                photo_width as int,
                photo_height as int,
                count_w as int,
                count_h as int,
                check_inside,
            )) by {
                lemma_kept_grid_index(
                    tspec,
                    rotation,
                    min_x as int,
                    min_y as int,
                    photo_width as int,
                    photo_height as int,
                    count_w as int,
                    count_h as int,
                    check_inside,
                );
                assert(forall|k: int| 0 <= k < count_w ==> result.deep_view()[k]
                    == (#[trigger] result@[k])@);
            }
        }
        pi = pi + 1;
    }
    Ok(results)
}

/// `kept_grid` has one entry per column, each the corresponding
/// `kept_column`.
pub proof fn lemma_kept_grid_index(
    tpoly: Seq<Point>,
    rot: Rotation,
    minx: int,
    miny: int,
    w: int,
    h: int,
    nw: int,
    nh: int,
    check: bool,
)
    requires
        nw >= 0,
    ensures
        kept_grid(tpoly, rot, minx, miny, w, h, nw, nh, check).len() == nw,
        forall|k: int| 0 <= k < nw ==> kept_grid(tpoly, rot, minx, miny, w, h, nw, nh, check)[k]
            == kept_column(tpoly, rot, minx, miny, w, h, k, nh, check),
    decreases nw,
{
    if nw > 0 {
        lemma_kept_grid_index(tpoly, rot, minx, miny, w, h, nw - 1, nh, check);
    }
}

} // verus!
