//! Multi-region route stitching: relative placement of rotated bounding
//! boxes, gap distances, per-region serpentine coverage paths, and the
//! spanning-tree-guided combination of several regions into one route.

use vstd::multiset::Multiset;
use vstd::prelude::*;

use crate::geo::{dist, euclidean_distance, in_metric_range, Point};
use crate::routes::find_minimal_pair;

verus! {

/// Relative placement of one rotated bounding box next to another.
#[derive(Clone, Copy, Debug, PartialEq, Eq, Structural)]
pub enum Direction {
    U,
    D,
    L,
    R,
    UL,
    UR,
    DL,
    DR,
}

/// The opposite placement: seen from the other box.
pub open spec fn opposite_of(d: Direction) -> Direction {
    match d {
        Direction::U => Direction::D,
        Direction::D => Direction::U,
        Direction::L => Direction::R,
        Direction::R => Direction::L,
        Direction::UL => Direction::DR,
        Direction::UR => Direction::DL,
        Direction::DL => Direction::UR,
        Direction::DR => Direction::UL,
    }
}

impl Direction {
    /// The opposite placement: seen from the other box.
    pub fn opposite(&self) -> (r: Direction)
        ensures
            r == opposite_of(*self),
    {
        match self {
            Direction::U => Direction::D,
            Direction::D => Direction::U,
            Direction::L => Direction::R,
            Direction::R => Direction::L,
            Direction::UL => Direction::DR,
            Direction::UR => Direction::DL,
            Direction::DL => Direction::UR,
            Direction::DR => Direction::UL,
        }
    }
}

/// Taking the opposite placement twice is the identity: `opposite` is a
/// total involution on the direction tags.
pub proof fn lemma_opposite_involution(d: Direction)
    ensures
        opposite_of(opposite_of(d)) == d,
{
}

/// A bounding box is handed around as its two corners in the heading
/// frame: `(left, top)` first, `(right, bottom)` second.
///
/// Classifies where box `b` sits relative to box `a`: strictly left,
/// right, above or below, or one of the four diagonal placements.
pub open spec fn direction_of(a: (Point, Point), b: (Point, Point)) -> Direction {
    let a_left = a.0.x;
    let a_top = a.0.y;
    let a_right = a.1.x;
    let a_bottom = a.1.y;
    let b_left = b.0.x;
    let b_top = b.0.y;
    let b_right = b.1.x;
    let b_bottom = b.1.y;
    if b_right < a_left {
        if a_top < b_bottom {
            Direction::UL
        } else if b_top < a_bottom {
            Direction::DL
        } else {
            Direction::L
        }
    } else if a_right < b_left {
        if a_top < b_bottom {
            Direction::UR
        } else if b_top < a_bottom {
            Direction::DR
        } else {
            Direction::R
        }
    } else {
        if a_top < b_bottom {
            Direction::U
        } else {
            Direction::D
        }
    }
}

/// The gap between two non-overlapping boxes, matched to their relative
/// placement: for the axis-aligned placements the straight distance
/// between the facing edges (negative when the boxes overlap on that
/// axis), for the diagonal placements the Euclidean distance between the
/// two nearest corners.
pub open spec fn gap_of(a: (Point, Point), b: (Point, Point)) -> int {
    match direction_of(a, b) {
        Direction::U => b.1.y - a.0.y,
        Direction::D => a.1.y - b.0.y,
        Direction::L => a.0.x - b.1.x,
        Direction::R => b.0.x - a.1.x,
        Direction::UL => dist(a.0, b.1) as int,
        Direction::UR => dist(Point { x: a.1.x, y: a.0.y }, Point { x: b.0.x, y: b.1.y }) as int,
        Direction::DL => dist(Point { x: a.0.x, y: a.1.y }, Point { x: b.1.x, y: b.0.y }) as int,
        Direction::DR => dist(a.1, b.0) as int,
    }
}

/// Classifies where box `b` sits relative to box `a`.
pub fn find_direction(a: (Point, Point), b: (Point, Point)) -> (r: Direction)
    ensures
        r == direction_of(a, b),
{
    let ((a_left_top, a_right_bottom), (b_left_top, b_right_bottom)) = (a, b);
    if b_right_bottom.x < a_left_top.x {
        if a_left_top.y < b_right_bottom.y {
            Direction::UL
        } else if b_left_top.y < a_right_bottom.y {
            Direction::DL
        } else {
            Direction::L
        }
    } else if a_right_bottom.x < b_left_top.x {
        if a_left_top.y < b_right_bottom.y {
            Direction::UR
        } else if b_left_top.y < a_right_bottom.y {
            Direction::DR
        } else {
            Direction::R
        }
    } else {
        if a_left_top.y < b_right_bottom.y {
            Direction::U
        } else {
            Direction::D
        }
    }
}

/// The gap between two boxes together with the relative placement that
/// the gap was measured along.
pub fn rectangles_shortest_path(a: (Point, Point), b: (Point, Point)) -> (r: (i64, Direction))
    requires
        in_metric_range(a.0),
        in_metric_range(a.1),
        in_metric_range(b.0),
        in_metric_range(b.1),
    ensures
        r.0 == gap_of(a, b),
        r.1 == direction_of(a, b),
{
    let direction = find_direction(a, b);
    let weight: i64 = match direction {
        Direction::U => b.1.y - a.0.y,
        Direction::D => a.1.y - b.0.y,
        Direction::L => a.0.x - b.1.x,
        Direction::R => b.0.x - a.1.x,
        Direction::UL => euclidean_distance(&a.0, &b.1) as i64,
        Direction::UR => euclidean_distance(
            &Point { x: a.1.x, y: a.0.y },
            &Point { x: b.0.x, y: b.1.y },
        ) as i64,
        Direction::DL => euclidean_distance(
            &Point { x: a.0.x, y: a.1.y },
            &Point { x: b.1.x, y: b.0.y },
        ) as i64,
        Direction::DR => euclidean_distance(&a.1, &b.0) as i64,
    };
    (weight, direction)
}

// ---------------------------------------------------------------------
// Serpentine ("lawn-mower") coverage path over one rectangular region.
// ---------------------------------------------------------------------

/// A region grid is rectangular: every column has the same height.
pub open spec fn rectangular(g: Seq<Seq<Point>>) -> bool {
    forall|c: int| 0 <= c < g.len() ==> (#[trigger] g[c]).len() == g[0].len()
}

/// First cell of every column: the bottom row, walked left to right.
pub open spec fn bottom_row(g: Seq<Seq<Point>>) -> Seq<Point> {
    Seq::new(g.len(), |i: int| g[i][0])
}

/// Column `c` from its second cell upward.
pub open spec fn col_up(g: Seq<Seq<Point>>, c: int, h: int) -> Seq<Point> {
    Seq::new((h - 1) as nat, |j: int| g[c][j + 1])
}

/// Column `c` from its top cell down to its second cell.
pub open spec fn col_down(g: Seq<Seq<Point>>, c: int, h: int) -> Seq<Point> {
    Seq::new((h - 1) as nat, |j: int| g[c][h - 1 - j])
}

/// The first `n` ramp pairs: adjacent inner columns walked in opposite
/// directions, working inward from the right.
pub open spec fn ramps(g: Seq<Seq<Point>>, w: int, h: int, n: int) -> Seq<Point>
    decreases n,
{
    if n <= 0 {
        Seq::empty()
    } else {
        ramps(g, w, h, n - 1) + col_down(g, w - 2 - 2 * (n - 1), h) + col_up(
            g,
            w - 3 - 2 * (n - 1),
            h,
        )
    }
}

/// The first `n` coil turns over the two leftmost columns, working from
/// the top downward.
pub open spec fn coils(g: Seq<Seq<Point>>, h: int, n: int) -> Seq<Point>
    decreases n,
{
    if n <= 0 {
        Seq::empty()
    } else {
        coils(g, h, n - 1) + seq![
            g[1][h - 1 - 2 * (n - 1)],
            g[0][h - 1 - 2 * (n - 1)],
            g[0][h - 2 - 2 * (n - 1)],
            g[1][h - 2 - 2 * (n - 1)],
        ]
    }
}

/// The serpentine coverage order of a rectangular region: the bottom row,
/// the right column, alternating inner columns working inward, and a
/// final tight coil (odd width) or the left column (even width).  A
/// region narrower than two columns is flattened column by column.
pub open spec fn serpentine(g: Seq<Seq<Point>>) -> Seq<Point> {
    let w = g.len() as int;
    let h = g[0].len() as int;
    if w == 0 {
        Seq::empty()
    } else if w == 1 {
        g[0]
    } else {
        let base = bottom_row(g) + col_up(g, w - 1, h) + ramps(g, w, h, (w - 2) / 2);
        if w % 2 == 1 {
            base + coils(g, h, (h - 1) / 2) + (if h % 2 == 0 {
                seq![g[1][1], g[0][1]]
            } else {
                Seq::empty()
            })
        } else {
            base + col_down(g, 0, h)
        }
    }
}

/// The deep view of a region grid is its sequence of column views.
proof fn lemma_region_view(region: &Vec<Vec<Point>>)
    ensures
        region.deep_view().len() == region@.len(),
        forall|c: int| 0 <= c < region@.len() ==> region.deep_view()[c] == (#[trigger] region@[c])@,
{
    assert forall|c: int|
        0 <= c < region@.len() implies region.deep_view()[c] == (#[trigger] region@[c])@ by {
        assert(region.deep_view()[c] =~= region@[c]@);
    }
}

/// Appends column `c`, walked upward from its second cell.
fn push_col_up(path: &mut Vec<Point>, region: &Vec<Vec<Point>>, c: usize)
    requires
        (c as int) < region@.len(),
        region@[c as int]@.len() >= 1,
    ensures
        final(path)@ == old(path)@ + col_up(
            region.deep_view(),
            c as int,
            region@[c as int]@.len() as int,
        ),
{
    proof {
        lemma_region_view(region);
    }
    let ghost g = region.deep_view();
    let ghost pre = path@;
    let h = region[c].len();
    let mut j: usize = 1;
    while j < h
        invariant
            1 <= j <= h,
            (c as int) < region@.len(),
            h == region@[c as int]@.len(),
            g == region.deep_view(),
            g[c as int] == region@[c as int]@,
            path@ =~= pre + Seq::new((j - 1) as nat, |jj: int| g[c as int][jj + 1]),
        decreases h - j,
    {
        path.push(region[c][j]);
        proof {
            assert(path@ =~= pre + Seq::new(j as nat, |jj: int| g[c as int][jj + 1]));
        }
        j = j + 1;
    }
    proof {
        assert(path@ =~= pre + col_up(g, c as int, h as int));
    }
}

/// Appends column `c`, walked downward from its top cell to its second
/// cell.
fn push_col_down(path: &mut Vec<Point>, region: &Vec<Vec<Point>>, c: usize)
    requires
        (c as int) < region@.len(),
        region@[c as int]@.len() >= 1,
    ensures
        final(path)@ == old(path)@ + col_down(
            region.deep_view(),
            c as int,
            region@[c as int]@.len() as int,
        ),
{
    proof {
        lemma_region_view(region);
    }
    let ghost g = region.deep_view();
    let ghost pre = path@;
    let h = region[c].len();
    let mut j: usize = h;
    while j > 1
        invariant
            1 <= j <= h,
            (c as int) < region@.len(),
            h == region@[c as int]@.len(),
            g == region.deep_view(),
            g[c as int] == region@[c as int]@,
            path@ =~= pre + Seq::new((h - j) as nat, |jj: int| g[c as int][h - 1 - jj]),
        decreases j,
    {
        j = j - 1;
        path.push(region[c][j]);
        proof {
            assert(path@ =~= pre + Seq::new((h - j) as nat, |jj: int| g[c as int][h - 1 - jj]));
        }
    }
    proof {
        assert(path@ =~= pre + col_down(g, c as int, h as int));
    }
}

/// Builds the serpentine coverage path of one rectangular region.
pub fn serpentine_path(region: &Vec<Vec<Point>>) -> (r: Vec<Point>)
    requires
        rectangular(region.deep_view()),
        forall|c: int| 0 <= c < region@.len() ==> (#[trigger] region@[c])@.len() >= 1,
    ensures
        r@ == serpentine(region.deep_view()),
{
    proof {
        lemma_region_view(region);
    }
    let ghost g = region.deep_view();
    let width = region.len();
    if width < 2 {
        let mut flat: Vec<Point> = Vec::new();
        if width == 1 {
            let h = region[0].len();
            let mut j: usize = 0;
            while j < h
                invariant
                    0 <= j <= h,
                    region@.len() == 1,
                    h == region@[0]@.len(),
                    g == region.deep_view(),
                    g[0] == region@[0]@,
                    flat@ =~= g[0].take(j as int),
                decreases h - j,
            {
                flat.push(region[0][j]);
                proof {
                    assert(flat@ =~= g[0].take(j + 1));
                }
                j = j + 1;
            }
            proof {
                assert(flat@ =~= g[0]);
            }
        } else {
            proof {
                assert(flat@ =~= serpentine(g));
            }
        }
        return flat;
    }
    let height = region[0].len();
    let mut path: Vec<Point> = Vec::new();

    // Bottom row, left to right.
    let mut i: usize = 0;
    while i < width
        invariant
            0 <= i <= width,
            width == region@.len() >= 2,
            height == region@[0]@.len() >= 1,
            g == region.deep_view(),
            rectangular(g),
            forall|c: int| 0 <= c < region@.len() ==> g[c] == (#[trigger] region@[c])@,
            path@ =~= Seq::new(i as nat, |k: int| g[k][0]),
        decreases width - i,
    {
        path.push(region[i][0]);
        proof {
            assert(path@ =~= Seq::new((i + 1) as nat, |k: int| g[k][0]));
        }
        i = i + 1;
    }
    proof {
        assert(path@ =~= bottom_row(g));
    }

    // Right column upward.
    push_col_up(&mut path, region, width - 1);
    proof {
        assert(path@ == bottom_row(g) + col_up(g, width - 1, height as int));
    }

    // Ramps: adjacent inner columns in opposite directions, inward.
    let ramp_count = (width - 2) / 2;
    let mut rn: usize = 0;
    while rn < ramp_count
        invariant
            0 <= rn <= ramp_count,
            ramp_count == (width - 2) / 2,
            width == region@.len() >= 2,
            height == region@[0]@.len() >= 1,
            g == region.deep_view(),
            rectangular(g),
            forall|c: int| 0 <= c < region@.len() ==> g[c] == (#[trigger] region@[c])@,
            path@ == bottom_row(g) + col_up(g, width - 1, height as int) + ramps(
                g,
                width as int,
                height as int,
                rn as int,
            ),
        decreases ramp_count - rn,
    {
        proof {
            vstd::arithmetic::div_mod::lemma_fundamental_div_mod(width - 2, 2);
            vstd::arithmetic::div_mod::lemma_mod_division_less_than_divisor(width - 2, 2);
        }
        push_col_down(&mut path, region, width - 2 - 2 * rn);
        push_col_up(&mut path, region, width - 3 - 2 * rn);
        rn = rn + 1;
    }

    if width % 2 == 1 {
        // Tight coil over the two leftmost columns.
        let coil_count = (height - 1) / 2;
        let mut cn: usize = 0;
        while cn < coil_count
            invariant
                0 <= cn <= coil_count,
                coil_count == (height - 1) / 2,
                width == region@.len() >= 2,
                height == region@[0]@.len() >= 1,
                g == region.deep_view(),
                rectangular(g),
                forall|c: int| 0 <= c < region@.len() ==> g[c] == (#[trigger] region@[c])@,
                path@ == bottom_row(g) + col_up(g, width - 1, height as int) + ramps(
                    g,
                    width as int,
                    height as int,
                    (width - 2) as int / 2,
                ) + coils(g, height as int, cn as int),
            decreases coil_count - cn,
        {
            proof {
                vstd::arithmetic::div_mod::lemma_fundamental_div_mod(height - 1, 2);
                vstd::arithmetic::div_mod::lemma_mod_division_less_than_divisor(height - 1, 2);
            }
            let ghost pre = path@;
            path.push(region[1][height - 1 - 2 * cn]);
            path.push(region[0][height - 1 - 2 * cn]);
            path.push(region[0][height - 2 - 2 * cn]);
            path.push(region[1][height - 2 - 2 * cn]);
            proof {
                assert(path@ =~= pre + seq![
                    g[1][height - 1 - 2 * cn],
                    g[0][height - 1 - 2 * cn],
                    g[0][height - 2 - 2 * cn],
                    g[1][height - 2 - 2 * cn],
                ]);
            }
            cn = cn + 1;
        }
        if height % 2 == 0 {
            let ghost pre = path@;
            path.push(region[1][1]);
            path.push(region[0][1]);
            proof {
                assert(path@ =~= pre + seq![g[1][1], g[0][1]]);
                assert(path@ =~= serpentine(g));
            }
        } else {
            proof {
                assert(path@ + Seq::<Point>::empty() =~= path@);
                assert(path@ =~= serpentine(g));
            }
        }
    } else {
        // Left column downward.
        push_col_down(&mut path, region, 0);
        proof {
            assert(path@ =~= serpentine(g));
        }
    }
    path
}

// ---------------------------------------------------------------------
// The serpentine path visits every cell of the region exactly once.
// ---------------------------------------------------------------------

/// Multiset of all cells of the first `i` columns.
pub open spec fn cells_ms(g: Seq<Seq<Point>>, i: int) -> Multiset<Point>
    decreases i,
{
    if i <= 0 {
        Multiset::empty()
    } else {
        cells_ms(g, i - 1).add(g[i - 1].to_multiset())
    }
}

/// Multiset of the first cells of the first `i` columns.
spec fn firsts_ms(g: Seq<Seq<Point>>, i: int) -> Multiset<Point>
    decreases i,
{
    if i <= 0 {
        Multiset::empty()
    } else {
        firsts_ms(g, i - 1).insert(g[i - 1][0])
    }
}

/// Multiset of the cells above the bottom row, over columns `lo .. hi`.
spec fn ups_ms(g: Seq<Seq<Point>>, lo: int, hi: int) -> Multiset<Point>
    decreases hi - lo,
{
    if hi <= lo {
        Multiset::empty()
    } else {
        ups_ms(g, lo, hi - 1).add(g[hi - 1].skip(1).to_multiset())
    }
}

/// Multiset of rows `lo .. hi` of the two leftmost columns.
spec fn two_cols_ms(g: Seq<Seq<Point>>, lo: int, hi: int) -> Multiset<Point>
    decreases hi - lo,
{
    if hi <= lo {
        Multiset::empty()
    } else {
        two_cols_ms(g, lo, hi - 1).insert(g[0][hi - 1]).insert(g[1][hi - 1])
    }
}

proof fn lemma_col_up_ms(g: Seq<Seq<Point>>, c: int, h: int)
    requires
        0 <= c < g.len(),
        g[c].len() == h,
        h >= 1,
    ensures
        col_up(g, c, h).to_multiset() == g[c].skip(1).to_multiset(),
{
    assert(col_up(g, c, h) =~= g[c].skip(1));
}

proof fn lemma_col_down_ms(g: Seq<Seq<Point>>, c: int, h: int)
    requires
        0 <= c < g.len(),
        g[c].len() == h,
        h >= 1,
    ensures
        col_down(g, c, h).to_multiset() == g[c].skip(1).to_multiset(),
{
    assert(col_down(g, c, h) =~= g[c].skip(1).reverse());
    g[c].skip(1).lemma_reverse_to_multiset();
}

proof fn lemma_bottom_row_ms(g: Seq<Seq<Point>>, i: int)
    requires
        0 <= i <= g.len(),
    ensures
        Seq::new(i as nat, |k: int| g[k][0]).to_multiset() == firsts_ms(g, i),
    decreases i,
{
    broadcast use vstd::seq_lib::group_to_multiset_ensures;
    broadcast use vstd::multiset::group_multiset_axioms;

    if i == 0 {
        assert(Seq::new(0, |k: int| g[k][0]) =~= Seq::<Point>::empty());
        assert(Seq::<Point>::empty().to_multiset() =~= Multiset::<Point>::empty()) by {
            assert forall|x: Point| #[trigger]
                Seq::<Point>::empty().to_multiset().count(x) == 0 by {
                assert(!Seq::<Point>::empty().contains(x));
            }
        }
    } else {
        lemma_bottom_row_ms(g, i - 1);
        assert(Seq::new(i as nat, |k: int| g[k][0]) =~= Seq::new(
            (i - 1) as nat,
            |k: int| g[k][0],
        ).push(g[i - 1][0]));
    }
}

/// Splitting a column at its first cell splits its multiset.
proof fn lemma_col_split_ms(g: Seq<Seq<Point>>, c: int)
    requires
        0 <= c < g.len(),
        g[c].len() >= 1,
    ensures
        g[c].to_multiset() == g[c].skip(1).to_multiset().insert(g[c][0]),
{
    broadcast use vstd::seq_lib::group_to_multiset_ensures;
    broadcast use vstd::multiset::group_multiset_axioms;

    assert(g[c] =~= g[c].skip(1).insert(0, g[c][0]));
    vstd::seq_lib::to_multiset_insert(g[c].skip(1), 0, g[c][0]);
}

/// All cells split into bottom-row cells plus upper cells.
proof fn lemma_cells_split(g: Seq<Seq<Point>>, i: int)
    requires
        0 <= i <= g.len(),
        forall|c: int| 0 <= c < g.len() ==> (#[trigger] g[c]).len() >= 1,
    ensures
        cells_ms(g, i) == firsts_ms(g, i).add(ups_ms(g, 0, i)),
    decreases i,
{
    broadcast use vstd::multiset::group_multiset_axioms;

    if i > 0 {
        lemma_cells_split(g, i - 1);
        lemma_col_split_ms(g, i - 1);
        assert(cells_ms(g, i) =~= firsts_ms(g, i).add(ups_ms(g, 0, i)));
    }
}

/// `ups_ms` splits at any middle column.
proof fn lemma_ups_split(g: Seq<Seq<Point>>, lo: int, mid: int, hi: int)
    requires
        lo <= mid <= hi,
    ensures
        ups_ms(g, lo, hi) == ups_ms(g, lo, mid).add(ups_ms(g, mid, hi)),
    decreases hi - mid,
{
    broadcast use vstd::multiset::group_multiset_axioms;

    if mid < hi {
        lemma_ups_split(g, lo, mid, hi - 1);
        assert(ups_ms(g, lo, hi) =~= ups_ms(g, lo, mid).add(ups_ms(g, mid, hi)));
    } else {
        assert(ups_ms(g, mid, hi) =~= Multiset::<Point>::empty());
        assert(ups_ms(g, lo, hi) =~= ups_ms(g, lo, mid).add(ups_ms(g, mid, hi)));
    }
}

/// The ramp pairs cover exactly the upper cells of columns
/// `w - 1 - 2n .. w - 1`.
proof fn lemma_ramps_ms(g: Seq<Seq<Point>>, w: int, h: int, n: int)
    requires
        w == g.len(),
        forall|c: int| 0 <= c < g.len() ==> (#[trigger] g[c]).len() == h,
        h >= 1,
        0 <= n,
        w - 1 - 2 * n >= 0,
    ensures
        ramps(g, w, h, n).to_multiset() == ups_ms(g, w - 1 - 2 * n, w - 1),
    decreases n,
{
    broadcast use vstd::multiset::group_multiset_axioms;

    if n == 0 {
        assert(ramps(g, w, h, 0).to_multiset() =~= Multiset::<Point>::empty()) by {
            assert forall|x: Point| #[trigger]
                Seq::<Point>::empty().to_multiset().count(x) == 0 by {
                broadcast use vstd::seq_lib::group_to_multiset_ensures;

                assert(!Seq::<Point>::empty().contains(x));
            }
        }
        assert(ups_ms(g, w - 1, w - 1) =~= Multiset::<Point>::empty());
    } else {
        lemma_ramps_ms(g, w, h, n - 1);
        let cd = w - 2 - 2 * (n - 1);
        let cu = w - 3 - 2 * (n - 1);
        lemma_col_down_ms(g, cd, h);
        lemma_col_up_ms(g, cu, h);
        vstd::seq_lib::lemma_multiset_commutative(
            ramps(g, w, h, n - 1),
            col_down(g, cd, h),
        );
        vstd::seq_lib::lemma_multiset_commutative(
            ramps(g, w, h, n - 1) + col_down(g, cd, h),
            col_up(g, cu, h),
        );
        // ups over [w-1-2n, w-1) peels its two lowest columns
        lemma_ups_split(g, w - 1 - 2 * n, w + 1 - 2 * n, w - 1);
        assert(ups_ms(g, w - 1 - 2 * n, w - 1 - 2 * n) =~= Multiset::<Point>::empty());
        assert(ups_ms(g, w - 1 - 2 * n, w - 2 * n) == ups_ms(g, w - 1 - 2 * n, w - 1 - 2 * n).add(
            g[cu].skip(1).to_multiset(),
        ));
        assert(ups_ms(g, w - 1 - 2 * n, w + 1 - 2 * n) == ups_ms(g, w - 1 - 2 * n, w - 2 * n).add(
            g[cd].skip(1).to_multiset(),
        ));
        assert(ramps(g, w, h, n).to_multiset() =~= ups_ms(g, w - 1 - 2 * n, w - 1));
    }
}

/// `two_cols_ms` equals the two columns' subrange multisets.
proof fn lemma_two_cols_subrange(g: Seq<Seq<Point>>, lo: int, h: int)
    requires
        g.len() >= 2,
        g[0].len() == h,
        g[1].len() == h,
        0 <= lo <= h,
    ensures
        two_cols_ms(g, lo, h) == g[0].subrange(lo, h).to_multiset().add(
            g[1].subrange(lo, h).to_multiset(),
        ),
    decreases h - lo, 1int,
{
    broadcast use vstd::seq_lib::group_to_multiset_ensures;
    broadcast use vstd::multiset::group_multiset_axioms;

    if lo == h {
        assert(g[0].subrange(h, h) =~= Seq::<Point>::empty());
        assert(Seq::<Point>::empty().to_multiset() =~= Multiset::<Point>::empty()) by {
            assert forall|x: Point| #[trigger]
                Seq::<Point>::empty().to_multiset().count(x) == 0 by {
                assert(!Seq::<Point>::empty().contains(x));
            }
        }
        assert(two_cols_ms(g, h, h) =~= Multiset::<Point>::empty().add(
            Multiset::<Point>::empty(),
        ));
    } else {
        // peel the lowest remaining row
        lemma_two_cols_peel(g, lo, h);
    }
}

/// Peels the lowest row out of `two_cols_ms`.
proof fn lemma_two_cols_peel(g: Seq<Seq<Point>>, lo: int, h: int)
    requires
        g.len() >= 2,
        g[0].len() == h,
        g[1].len() == h,
        0 <= lo < h,
    ensures
        two_cols_ms(g, lo, h) == g[0].subrange(lo, h).to_multiset().add(
            g[1].subrange(lo, h).to_multiset(),
        ),
    decreases h - lo, 0int,
{
    broadcast use vstd::seq_lib::group_to_multiset_ensures;
    broadcast use vstd::multiset::group_multiset_axioms;

    lemma_two_cols_subrange(g, lo + 1, h);
    assert(g[0].subrange(lo, h) =~= g[0].subrange(lo + 1, h).insert(0, g[0][lo]));
    assert(g[1].subrange(lo, h) =~= g[1].subrange(lo + 1, h).insert(0, g[1][lo]));
    vstd::seq_lib::to_multiset_insert(g[0].subrange(lo + 1, h), 0, g[0][lo]);
    vstd::seq_lib::to_multiset_insert(g[1].subrange(lo + 1, h), 0, g[1][lo]);
    lemma_two_cols_lo(g, lo, h);
    assert(two_cols_ms(g, lo, h) =~= g[0].subrange(lo, h).to_multiset().add(
        g[1].subrange(lo, h).to_multiset(),
    ));
}

/// `two_cols_ms` may equally peel its lowest row first.
proof fn lemma_two_cols_lo(g: Seq<Seq<Point>>, lo: int, h: int)
    requires
        0 <= lo < h,
    ensures
        two_cols_ms(g, lo, h) == two_cols_ms(g, lo + 1, h).insert(g[0][lo]).insert(g[1][lo]),
    decreases h - lo,
{
    broadcast use vstd::multiset::group_multiset_axioms;

    if lo + 1 < h {
        lemma_two_cols_lo(g, lo, h - 1);
        assert(two_cols_ms(g, lo, h) =~= two_cols_ms(g, lo + 1, h).insert(g[0][lo]).insert(
            g[1][lo],
        ));
    } else {
        assert(two_cols_ms(g, lo, lo) =~= Multiset::<Point>::empty());
        assert(two_cols_ms(g, lo + 1, h) =~= Multiset::<Point>::empty());
        assert(two_cols_ms(g, lo, h) == two_cols_ms(g, lo, lo).insert(g[0][lo]).insert(g[1][lo]));
    }
}

/// The coil turns cover exactly rows `h - 2n .. h` of the two leftmost
/// columns.
proof fn lemma_coils_ms(g: Seq<Seq<Point>>, h: int, n: int)
    requires
        g.len() >= 2,
        g[0].len() == h,
        g[1].len() == h,
        0 <= n,
        h - 2 * n >= 0,
    ensures
        coils(g, h, n).to_multiset() == two_cols_ms(g, h - 2 * n, h),
    decreases n,
{
    broadcast use vstd::seq_lib::group_to_multiset_ensures;
    broadcast use vstd::multiset::group_multiset_axioms;

    if n == 0 {
        assert(coils(g, h, 0).to_multiset() =~= Multiset::<Point>::empty()) by {
            assert forall|x: Point| #[trigger]
                Seq::<Point>::empty().to_multiset().count(x) == 0 by {
                assert(!Seq::<Point>::empty().contains(x));
            }
        }
        assert(two_cols_ms(g, h, h) =~= Multiset::<Point>::empty());
    } else {
        lemma_coils_ms(g, h, n - 1);
        let j1 = h - 1 - 2 * (n - 1);
        let j0 = h - 2 - 2 * (n - 1);
        let turn = seq![g[1][j1], g[0][j1], g[0][j0], g[1][j0]];
        vstd::seq_lib::lemma_multiset_commutative(coils(g, h, n - 1), turn);
        assert(turn =~= Seq::<Point>::empty().push(g[1][j1]).push(g[0][j1]).push(g[0][j0]).push(
            g[1][j0],
        ));
        assert(Seq::<Point>::empty().to_multiset() =~= Multiset::<Point>::empty()) by {
            assert forall|x: Point| #[trigger]
                Seq::<Point>::empty().to_multiset().count(x) == 0 by {
                assert(!Seq::<Point>::empty().contains(x));
            }
        }
        lemma_two_cols_lo(g, j0, h);
        lemma_two_cols_lo(g, j1, h);
        assert(coils(g, h, n).to_multiset() =~= two_cols_ms(g, h - 2 * n, h));
    }
}

/// Full single-pass coverage: the serpentine path of a rectangular region
/// visits every cell of the region exactly once.
#[verifier::rlimit(100)]
pub proof fn lemma_serpentine_cells(g: Seq<Seq<Point>>)
    requires
        rectangular(g),
        forall|c: int| 0 <= c < g.len() ==> (#[trigger] g[c]).len() >= 1,
    ensures
        serpentine(g).to_multiset() == cells_ms(g, g.len() as int),
{
    broadcast use vstd::seq_lib::group_to_multiset_ensures;
    broadcast use vstd::multiset::group_multiset_axioms;

    let w = g.len() as int;
    if w == 0 {
        assert(Seq::<Point>::empty().to_multiset() =~= Multiset::<Point>::empty()) by {
            assert forall|x: Point| #[trigger]
                Seq::<Point>::empty().to_multiset().count(x) == 0 by {
                assert(!Seq::<Point>::empty().contains(x));
            }
        }
        assert(cells_ms(g, 0) =~= Multiset::<Point>::empty());
    } else if w == 1 {
        assert(cells_ms(g, 0) =~= Multiset::<Point>::empty());
        assert(cells_ms(g, 1) == cells_ms(g, 0).add(g[0].to_multiset()));
        assert(cells_ms(g, 1) =~= g[0].to_multiset());
    } else {
        if w % 2 == 1 {
            lemma_serpentine_cells_odd(g);
        } else {
            lemma_serpentine_cells_even(g);
        }
    }
}

/// Coverage of the serpentine path for an odd number of columns: the
/// coil over the two leftmost columns picks up what the ramps leave.
#[verifier::rlimit(100)]
proof fn lemma_serpentine_cells_odd(g: Seq<Seq<Point>>)
    requires
        rectangular(g),
        forall|c: int| 0 <= c < g.len() ==> (#[trigger] g[c]).len() >= 1,
        g.len() >= 2,
        g.len() % 2 == 1,
    ensures
        serpentine(g).to_multiset() == cells_ms(g, g.len() as int),
{
    broadcast use vstd::seq_lib::group_to_multiset_ensures;
    broadcast use vstd::multiset::group_multiset_axioms;

    let w = g.len() as int;
    {
        let h = g[0].len() as int;
        lemma_cells_split(g, w);
        lemma_bottom_row_ms(g, w);
        assert(bottom_row(g) =~= Seq::new(w as nat, |k: int| g[k][0]));
        lemma_col_up_ms(g, w - 1, h);
        let base = bottom_row(g) + col_up(g, w - 1, h) + ramps(g, w, h, (w - 2) / 2);
        vstd::seq_lib::lemma_multiset_commutative(bottom_row(g), col_up(g, w - 1, h));
        vstd::seq_lib::lemma_multiset_commutative(
            bottom_row(g) + col_up(g, w - 1, h),
            ramps(g, w, h, (w - 2) / 2),
        );
        vstd::arithmetic::div_mod::lemma_fundamental_div_mod(w - 2, 2);
        vstd::arithmetic::div_mod::lemma_mod_division_less_than_divisor(w - 2, 2);
        {
            vstd::arithmetic::div_mod::lemma_fundamental_div_mod(w, 2);
            vstd::arithmetic::div_mod::lemma_mod_division_less_than_divisor(w, 2);
            assert(w - 1 - 2 * ((w - 2) / 2) == 2);
            lemma_ramps_ms(g, w, h, (w - 2) / 2);
            vstd::arithmetic::div_mod::lemma_fundamental_div_mod(h - 1, 2);
            vstd::arithmetic::div_mod::lemma_mod_division_less_than_divisor(h - 1, 2);
            lemma_coils_ms(g, h, (h - 1) / 2);
            vstd::seq_lib::lemma_multiset_commutative(base, coils(g, h, (h - 1) / 2));
            lemma_ups_split(g, 0, 2, w - 1);
            assert(ups_ms(g, 0, 0) =~= Multiset::<Point>::empty());
            assert(ups_ms(g, 0, 1) == ups_ms(g, 0, 0).add(g[0].skip(1).to_multiset()));
            assert(ups_ms(g, 0, 2) == ups_ms(g, 0, 1).add(g[1].skip(1).to_multiset()));
            if h % 2 == 0 {
                vstd::arithmetic::div_mod::lemma_fundamental_div_mod(h, 2);
                assert(h - 2 * ((h - 1) / 2) == 2);
                lemma_two_cols_lo(g, 1, h);
                lemma_two_cols_subrange(g, 1, h);
                assert(g[0].subrange(1, h) =~= g[0].skip(1));
                assert(g[1].subrange(1, h) =~= g[1].skip(1));
                let tail = seq![g[1][1], g[0][1]];
                vstd::seq_lib::lemma_multiset_commutative(
                    base + coils(g, h, (h - 1) / 2),
                    tail,
                );
                assert(tail =~= Seq::<Point>::empty().push(g[1][1]).push(g[0][1]));
                assert(Seq::<Point>::empty().to_multiset() =~= Multiset::<Point>::empty()) by {
                    assert forall|x: Point| #[trigger]
                        Seq::<Point>::empty().to_multiset().count(x) == 0 by {
                        assert(!Seq::<Point>::empty().contains(x));
                    }
                }
                let n1 = (h - 1) / 2;
                assert(serpentine(g) == base + coils(g, h, n1) + tail);
                assert(serpentine(g).to_multiset() == (base + coils(g, h, n1)).to_multiset().add(
                    tail.to_multiset(),
                ));
                assert(tail.to_multiset() =~= Multiset::<Point>::empty().insert(g[1][1]).insert(
                    g[0][1],
                ));
                assert(coils(g, h, n1).to_multiset() == two_cols_ms(g, 2, h));
                assert(two_cols_ms(g, 1, h) == two_cols_ms(g, 2, h).insert(g[0][1]).insert(
                    g[1][1],
                ));
                assert(two_cols_ms(g, 1, h) == g[0].skip(1).to_multiset().add(
                    g[1].skip(1).to_multiset(),
                ));
                assert(cells_ms(g, w) == firsts_ms(g, w).add(ups_ms(g, 0, w)));
                assert(ups_ms(g, 0, w) == ups_ms(g, 0, w - 1).add(g[w - 1].skip(1).to_multiset()));
                assert(ups_ms(g, 0, w - 1) == ups_ms(g, 0, 2).add(ups_ms(g, 2, w - 1)));
                assert(base.to_multiset() == bottom_row(g).to_multiset().add(
                    col_up(g, w - 1, h).to_multiset(),
                ).add(ramps(g, w, h, (w - 2) / 2).to_multiset()));
                assert forall|x: Point| serpentine(g).to_multiset().count(x) == cells_ms(
                    g,
                    w,
                ).count(x) by {
                    assert(serpentine(g).to_multiset().count(x) == firsts_ms(g, w).count(x)
                        + g[w - 1].skip(1).to_multiset().count(x) + ups_ms(g, 2, w - 1).count(x)
                        + two_cols_ms(g, 2, h).count(x) + Multiset::<Point>::empty().insert(
                        g[1][1],
                    ).insert(g[0][1]).count(x));
                    assert(ups_ms(g, 0, 2).count(x) == g[0].skip(1).to_multiset().count(x)
                        + g[1].skip(1).to_multiset().count(x));
                    assert(two_cols_ms(g, 1, h).count(x) == two_cols_ms(g, 2, h).count(x) + (
                    if x == g[0][1] {
                        1int
                    } else {
                        0int
                    }) + (if x == g[1][1] {
                        1int
                    } else {
                        0int
                    }));
                    assert(cells_ms(g, w).count(x) == firsts_ms(g, w).count(x) + ups_ms(
                        g,
                        0,
                        2,
                    ).count(x) + ups_ms(g, 2, w - 1).count(x) + g[w - 1].skip(
                        1,
                    ).to_multiset().count(x));
                }
                assert(serpentine(g).to_multiset() =~= cells_ms(g, w));
            } else {
                assert(h - 2 * ((h - 1) / 2) == 1);
                lemma_two_cols_subrange(g, 1, h);
                assert(g[0].subrange(1, h) =~= g[0].skip(1));
                assert(g[1].subrange(1, h) =~= g[1].skip(1));
                assert(serpentine(g) =~= base + coils(g, h, (h - 1) / 2));
                assert(serpentine(g).to_multiset() =~= cells_ms(g, w));
            }
        }
    }
}

/// Coverage of the serpentine path for an even number of columns: the
/// left column walked downward picks up what the ramps leave.
#[verifier::rlimit(100)]
proof fn lemma_serpentine_cells_even(g: Seq<Seq<Point>>)
    requires
        rectangular(g),
        forall|c: int| 0 <= c < g.len() ==> (#[trigger] g[c]).len() >= 1,
        g.len() >= 2,
        g.len() % 2 == 0,
    ensures
        serpentine(g).to_multiset() == cells_ms(g, g.len() as int),
{
    broadcast use vstd::seq_lib::group_to_multiset_ensures;
    broadcast use vstd::multiset::group_multiset_axioms;

    let w = g.len() as int;
    {
        let h = g[0].len() as int;
        lemma_cells_split(g, w);
        lemma_bottom_row_ms(g, w);
        assert(bottom_row(g) =~= Seq::new(w as nat, |k: int| g[k][0]));
        lemma_col_up_ms(g, w - 1, h);
        let base = bottom_row(g) + col_up(g, w - 1, h) + ramps(g, w, h, (w - 2) / 2);
        vstd::seq_lib::lemma_multiset_commutative(bottom_row(g), col_up(g, w - 1, h));
        vstd::seq_lib::lemma_multiset_commutative(
            bottom_row(g) + col_up(g, w - 1, h),
            ramps(g, w, h, (w - 2) / 2),
        );
        vstd::arithmetic::div_mod::lemma_fundamental_div_mod(w - 2, 2);
        vstd::arithmetic::div_mod::lemma_mod_division_less_than_divisor(w - 2, 2);
        {
            assert(w - 1 - 2 * ((w - 2) / 2) == 1);
            lemma_ramps_ms(g, w, h, (w - 2) / 2);
            lemma_col_down_ms(g, 0, h);
            vstd::seq_lib::lemma_multiset_commutative(base, col_down(g, 0, h));
            lemma_ups_split(g, 0, 1, w - 1);
            assert(ups_ms(g, 0, 0) =~= Multiset::<Point>::empty());
            assert(ups_ms(g, 0, 1) == ups_ms(g, 0, 0).add(g[0].skip(1).to_multiset()));
            assert(serpentine(g).to_multiset() =~= cells_ms(g, w));
        }
    }
}

/// Every cell of a rectangular region lies on its serpentine path.
pub proof fn lemma_serpentine_contains(g: Seq<Seq<Point>>, c: int, j: int)
    requires
        rectangular(g),
        forall|cc: int| 0 <= cc < g.len() ==> (#[trigger] g[cc]).len() >= 1,
        0 <= c < g.len(),
        0 <= j < g[c].len(),
    ensures
        serpentine(g).contains(g[c][j]),
{
    broadcast use vstd::seq_lib::group_to_multiset_ensures;
    broadcast use vstd::multiset::group_multiset_axioms;

    lemma_serpentine_cells(g);
    lemma_cells_ms_count(g, g.len() as int, c, g[c][j]);
    assert(g[c].contains(g[c][j]));
    assert(g[c].to_multiset().count(g[c][j]) > 0);
    assert(serpentine(g).to_multiset().count(g[c][j]) > 0);
}

/// The cell multiset counts at least what one column counts.
proof fn lemma_cells_ms_count(g: Seq<Seq<Point>>, i: int, c: int, x: Point)
    requires
        0 <= c < i,
    ensures
        cells_ms(g, i).count(x) >= g[c].to_multiset().count(x),
    decreases i,
{
    broadcast use vstd::multiset::group_multiset_axioms;

    if c < i - 1 {
        lemma_cells_ms_count(g, i - 1, c, x);
    }
}

// ---------------------------------------------------------------------
// Route splicing.
// ---------------------------------------------------------------------

/// Index of the first occurrence of `x` at or after `i`; `s.len()` when
/// absent.
pub open spec fn first_index_from(s: Seq<Point>, x: Point, i: int) -> int
    decreases s.len() - i,
{
    if i < 0 || i >= s.len() {
        i
    } else if s[i] == x {
        i
    } else {
        first_index_from(s, x, i + 1)
    }
}

/// Index of the first occurrence of `x` in `s`.
pub open spec fn first_index_of(s: Seq<Point>, x: Point) -> int {
    first_index_from(s, x, 0)
}

/// When `x` occurs in `s`, its first index is a valid index holding `x`,
/// and nothing before it holds `x`.
pub proof fn lemma_first_index(s: Seq<Point>, x: Point, i: int)
    requires
        0 <= i,
        exists|k: int| i <= k < s.len() && s[k] == x,
    ensures
        i <= first_index_from(s, x, i) < s.len(),
        s[first_index_from(s, x, i)] == x,
    decreases s.len() - i,
{
    if s[i] != x {
        lemma_first_index(s, x, i + 1);
    }
}

/// Splitting two sequences and recombining the four parts preserves the
/// combined multiset.
proof fn lemma_splice_multiset(a: Seq<Point>, b: Seq<Point>, i1: int, i2: int)
    requires
        0 <= i1 <= a.len(),
        0 <= i2 <= b.len(),
    ensures
        (a.take(i1) + b.skip(i2) + b.take(i2) + a.skip(i1)).to_multiset() == a.to_multiset().add(
            b.to_multiset(),
        ),
{
    broadcast use vstd::seq_lib::group_to_multiset_ensures;
    broadcast use vstd::multiset::group_multiset_axioms;

    let whole = a.take(i1) + b.skip(i2) + b.take(i2) + a.skip(i1);
    vstd::seq_lib::lemma_multiset_commutative(a.take(i1), b.skip(i2));
    vstd::seq_lib::lemma_multiset_commutative(a.take(i1) + b.skip(i2), b.take(i2));
    vstd::seq_lib::lemma_multiset_commutative(a.take(i1) + b.skip(i2) + b.take(i2), a.skip(i1));
    vstd::seq_lib::lemma_multiset_commutative(a.take(i1), a.skip(i1));
    vstd::seq_lib::lemma_multiset_commutative(b.take(i2), b.skip(i2));
    assert(a.take(i1) + a.skip(i1) =~= a);
    assert(b.take(i2) + b.skip(i2) =~= b);
    assert(whole.to_multiset() =~= a.to_multiset().add(b.to_multiset()));
}

/// Splices `segment` into `route` immediately after the first occurrence
/// of `at_element`.  The segment enters rotated: its part from the first
/// occurrence of `element` onward comes first, its part before `element`
/// follows, so the spliced detour starts at `element`.
pub fn insert_route_after(
    route: &mut Vec<Point>,
    segment: &Vec<Point>,
    element: Point,
    at_element: Point,
) -> (r: bool)
    ensures
        r == (old(route)@.contains(at_element) && segment@.contains(element)),
        r ==> final(route)@ == old(route)@.take(first_index_of(old(route)@, at_element) + 1)
            + segment@.skip(first_index_of(segment@, element)) + segment@.take(
            first_index_of(segment@, element),
        ) + old(route)@.skip(first_index_of(old(route)@, at_element) + 1),
        r ==> final(route)@.to_multiset() == old(route)@.to_multiset().add(segment@.to_multiset()),
        !r ==> final(route)@ == old(route)@,
{
    let ghost r0 = route@;
    // first occurrence of `element` in the segment
    let mut idx2: usize = 0;
    let mut found2 = false;
    while idx2 < segment.len() && !found2
        invariant
            0 <= idx2 <= segment@.len(),
            found2 ==> idx2 < segment@.len() && segment@[idx2 as int] == element,
            found2 ==> first_index_of(segment@, element) == idx2,
            !found2 ==> first_index_from(segment@, element, idx2 as int) == first_index_of(
                segment@,
                element,
            ),
            !found2 ==> forall|k: int| 0 <= k < idx2 ==> segment@[k] != element,
        decreases segment@.len() - idx2 + (if found2 {
            0int
        } else {
            1int
        }),
    {
        if segment[idx2] == element {
            found2 = true;
        } else {
            idx2 = idx2 + 1;
        }
    }
    // first occurrence of `at_element` in the route
    let mut idx1: usize = 0;
    let mut found1 = false;
    while idx1 < route.len() && !found1
        invariant
            route@ == r0,
            0 <= idx1 <= r0.len(),
            found1 ==> idx1 < r0.len() && r0[idx1 as int] == at_element,
            found1 ==> first_index_of(r0, at_element) == idx1,
            !found1 ==> first_index_from(r0, at_element, idx1 as int) == first_index_of(
                r0,
                at_element,
            ),
            !found1 ==> forall|k: int| 0 <= k < idx1 ==> r0[k] != at_element,
        decreases r0.len() - idx1 + (if found1 {
            0int
        } else {
            1int
        }),
    {
        if route[idx1] == at_element {
            found1 = true;
        } else {
            idx1 = idx1 + 1;
        }
    }
    if !found1 || !found2 {
        proof {
            if !found1 {
                assert(forall|k: int| 0 <= k < r0.len() ==> r0[k] != at_element);
                assert(!r0.contains(at_element));
            }
            if !found2 {
                assert(forall|k: int| 0 <= k < segment@.len() ==> segment@[k] != element);
                assert(!segment@.contains(element));
            }
        }
        return false;
    }
    proof {
        assert(r0[idx1 as int] == at_element);
        assert(r0.contains(at_element));
        assert(segment@.contains(element));
    }
    // rebuild: route prefix, rotated segment, route suffix
    let route_len = route.len();
    let mut rebuilt: Vec<Point> = Vec::new();
    let mut k: usize = 0;
    while k < idx1 + 1
        invariant
            0 <= k <= idx1 + 1,
            idx1 < r0.len(),
            route_len == r0.len(),
            route@ == r0,
            rebuilt@ =~= r0.take(k as int),
        decreases idx1 + 1 - k,
    {
        rebuilt.push(route[k]);
        proof {
            assert(rebuilt@ =~= r0.take(k + 1));
        }
        k = k + 1;
    }
    let mut k2: usize = idx2;
    while k2 < segment.len()
        invariant
            idx2 <= k2 <= segment@.len(),
            idx1 < r0.len(),
            idx2 < segment@.len(),
            rebuilt@ =~= r0.take(idx1 + 1) + segment@.skip(idx2 as int).take(k2 - idx2),
        decreases segment@.len() - k2,
    {
        rebuilt.push(segment[k2]);
        proof {
            assert(rebuilt@ =~= r0.take(idx1 + 1) + segment@.skip(idx2 as int).take(
                k2 + 1 - idx2,
            ));
        }
        k2 = k2 + 1;
    }
    proof {
        assert(segment@.skip(idx2 as int).take(segment@.len() - idx2) =~= segment@.skip(
            idx2 as int,
        ));
        assert(rebuilt@ =~= r0.take(idx1 + 1) + segment@.skip(idx2 as int));
    }
    let mut k3: usize = 0;
    while k3 < idx2
        invariant
            0 <= k3 <= idx2,
            idx1 < r0.len(),
            idx2 < segment@.len(),
            rebuilt@ =~= r0.take(idx1 + 1) + segment@.skip(idx2 as int) + segment@.take(
                k3 as int,
            ),
        decreases idx2 - k3,
    {
        rebuilt.push(segment[k3]);
        proof {
            assert(rebuilt@ =~= r0.take(idx1 + 1) + segment@.skip(idx2 as int) + segment@.take(
                k3 + 1,
            ));
        }
        k3 = k3 + 1;
    }
    let mut k4: usize = idx1 + 1;
    while k4 < route.len()
        invariant
            idx1 + 1 <= k4 <= r0.len(),
            idx1 < r0.len(),
            route_len == r0.len(),
            idx2 < segment@.len(),
            route@ == r0,
            rebuilt@ =~= r0.take(idx1 + 1) + segment@.skip(idx2 as int) + segment@.take(
                idx2 as int,
            ) + r0.skip(idx1 + 1).take(k4 - idx1 - 1),
        decreases r0.len() - k4,
    {
        rebuilt.push(route[k4]);
        proof {
            assert(rebuilt@ =~= r0.take(idx1 + 1) + segment@.skip(idx2 as int) + segment@.take(
                idx2 as int,
            ) + r0.skip(idx1 + 1).take(k4 - idx1));
        }
        k4 = k4 + 1;
    }
    proof {
        assert(r0.skip(idx1 + 1).take(r0.len() - idx1 - 1) =~= r0.skip(idx1 + 1));
        assert(rebuilt@ =~= r0.take(idx1 + 1) + segment@.skip(idx2 as int) + segment@.take(
            idx2 as int,
        ) + r0.skip(idx1 + 1));
        lemma_splice_multiset(r0, segment@, idx1 + 1, idx2 as int);
    }
    *route = rebuilt;
    true
}

// ---------------------------------------------------------------------
// Combining several regions into one route.
// ---------------------------------------------------------------------

/// A region grid that the combiner accepts: at least one column, at least
/// one row, and all columns of equal height.
pub open spec fn region_valid(g: Seq<Seq<Point>>) -> bool {
    &&& g.len() >= 1
    &&& g[0].len() >= 1
    &&& rectangular(g)
}

/// Every region of the list is valid.
pub open spec fn all_regions_valid(p: Seq<Seq<Seq<Point>>>) -> bool {
    forall|r: int| 0 <= r < p.len() ==> region_valid(#[trigger] p[r])
}

/// Every cell of every region lies in the world coordinate range.
pub open spec fn all_regions_in_world(p: Seq<Seq<Seq<Point>>>) -> bool {
    forall|r: int, c: int, j: int|
        0 <= r < p.len() && 0 <= c < p[r].len() && 0 <= j < p[r][c].len() ==> crate::geo::in_world_range(
            #[trigger] p[r][c][j],
        )
}

/// The heading-frame pseudo-corner box of region `r`: the rotated top
/// cell of the first column paired with the rotated bottom cell of the
/// last column.
pub open spec fn region_box(p: Seq<Seq<Seq<Point>>>, rot: crate::rotation::Rotation, r: int) -> (
    Point,
    Point,
) {
    (
        crate::rotation::rotate_point(rot, p[r][0][p[r][0].len() - 1]),
        crate::rotation::rotate_point(rot, p[r][p[r].len() - 1][0]),
    )
}

/// `q` lies inside (or on the border of) box `a`.
pub open spec fn corner_inside(a: (Point, Point), q: Point) -> bool {
    &&& a.0.x <= q.x <= a.1.x
    &&& a.1.y <= q.y <= a.0.y
}

/// Some corner of box `b` lies inside box `a`.
pub open spec fn boxes_intersect(a: (Point, Point), b: (Point, Point)) -> bool {
    ||| corner_inside(a, Point { x: b.0.x, y: b.0.y })
    ||| corner_inside(a, Point { x: b.1.x, y: b.1.y })
    ||| corner_inside(a, Point { x: b.0.x, y: b.1.y })
    ||| corner_inside(a, Point { x: b.1.x, y: b.0.y })
}

/// The route is a closed loop with the start point inserted at one
/// position: removing that one occurrence of the start leaves a route
/// that begins and ends at the same point.
pub open spec fn closed_loop_with_start(route: Seq<Point>, start: Point) -> bool {
    exists|k: int|
        0 <= k < route.len() && #[trigger] route[k] == start && route.remove(k).len() >= 2
            && route.remove(k)[0] == route.remove(k)[route.remove(k).len() - 1]
}

/// Sum of the serpentine-path multisets of the regions with index below
/// `i` that belong to `s`.
pub open spec fn set_paths_ms(p: Seq<Seq<Seq<Point>>>, s: Set<int>, i: int) -> Multiset<Point>
    decreases i,
{
    if i <= 0 {
        Multiset::empty()
    } else if s.contains(i - 1) {
        set_paths_ms(p, s, i - 1).add(serpentine(p[i - 1]).to_multiset())
    } else {
        set_paths_ms(p, s, i - 1)
    }
}

/// Sum of the serpentine-path multisets of all regions.
pub open spec fn paths_ms(p: Seq<Seq<Seq<Point>>>, i: int) -> Multiset<Point>
    decreases i,
{
    if i <= 0 {
        Multiset::empty()
    } else {
        paths_ms(p, i - 1).add(serpentine(p[i - 1]).to_multiset())
    }
}

/// Multiset of all cells of the first `i` regions.
pub open spec fn all_cells_ms(p: Seq<Seq<Seq<Point>>>, i: int) -> Multiset<Point>
    decreases i,
{
    if i <= 0 {
        Multiset::empty()
    } else {
        all_cells_ms(p, i - 1).add(cells_ms(p[i - 1], p[i - 1].len() as int))
    }
}

/// The combined coverage paths hold exactly the regions' cells: joining
/// the per-region serpentine paths loses no cell and repeats none.
pub proof fn lemma_paths_are_cells(p: Seq<Seq<Seq<Point>>>, i: int)
    requires
        0 <= i <= p.len(),
        forall|r: int| 0 <= r < i ==> region_valid(#[trigger] p[r]),
    ensures
        paths_ms(p, i) == all_cells_ms(p, i),
    decreases i,
{
    if i > 0 {
        lemma_paths_are_cells(p, i - 1);
        lemma_serpentine_cells(p[i - 1]);
    }
}

/// Adding one region to the index set adds exactly its path multiset.
proof fn lemma_set_paths_insert(p: Seq<Seq<Seq<Point>>>, s: Set<int>, j: int, i: int)
    requires
        !s.contains(j),
        0 <= j,
    ensures
        set_paths_ms(p, s.insert(j), i) == (if j < i {
            set_paths_ms(p, s, i).add(serpentine(p[j]).to_multiset())
        } else {
            set_paths_ms(p, s, i)
        }),
    decreases i,
{
    broadcast use vstd::multiset::group_multiset_axioms;

    if i > 0 {
        lemma_set_paths_insert(p, s, j, i - 1);
        if j == i - 1 {
            assert(set_paths_ms(p, s.insert(j), i) =~= set_paths_ms(p, s, i).add(
                serpentine(p[j]).to_multiset(),
            ));
        } else if j < i - 1 {
            if s.contains(i - 1) {
                assert(set_paths_ms(p, s.insert(j), i) =~= set_paths_ms(p, s, i).add(
                    serpentine(p[j]).to_multiset(),
                ));
            }
        }
    }
}

/// Over the full index range the set sum equals the plain sum.
proof fn lemma_set_paths_full(p: Seq<Seq<Seq<Point>>>, s: Set<int>, i: int)
    requires
        forall|r: int| 0 <= r < i ==> s.contains(r),
    ensures
        set_paths_ms(p, s, i) == paths_ms(p, i),
    decreases i,
{
    if i > 0 {
        lemma_set_paths_full(p, s, i - 1);
    }
}

/// A member region's path multiset counts into the set sum.
proof fn lemma_set_paths_count(p: Seq<Seq<Seq<Point>>>, s: Set<int>, i: int, r: int, x: Point)
    requires
        0 <= r < i,
        s.contains(r),
    ensures
        set_paths_ms(p, s, i).count(x) >= serpentine(p[r]).to_multiset().count(x),
    decreases i,
{
    broadcast use vstd::multiset::group_multiset_axioms;

    if r < i - 1 {
        lemma_set_paths_count(p, s, i - 1, r, x);
    }
}

/// Any element counted by the set sum belongs to some member region's
/// path.
proof fn lemma_set_paths_member(p: Seq<Seq<Seq<Point>>>, s: Set<int>, i: int, x: Point)
    requires
        set_paths_ms(p, s, i).count(x) > 0,
    ensures
        exists|r: int| 0 <= r < i && s.contains(r) && serpentine(#[trigger] p[r]).contains(x),
    decreases i,
{
    broadcast use vstd::multiset::group_multiset_axioms;
    broadcast use vstd::seq_lib::group_to_multiset_ensures;

    if i > 0 {
        if s.contains(i - 1) && serpentine(p[i - 1]).to_multiset().count(x) > 0 {
            assert(serpentine(p[i - 1]).contains(x));
        } else {
            lemma_set_paths_member(p, s, i - 1, x);
        }
    }
}

/// Any element counted by the cell multiset lies in some column.
proof fn lemma_cells_ms_member(g: Seq<Seq<Point>>, i: int, x: Point)
    requires
        cells_ms(g, i).count(x) > 0,
    ensures
        exists|c: int| 0 <= c < i && (#[trigger] g[c]).contains(x),
    decreases i,
{
    broadcast use vstd::multiset::group_multiset_axioms;
    broadcast use vstd::seq_lib::group_to_multiset_ensures;

    if i > 0 {
        if g[i - 1].to_multiset().count(x) > 0 {
            assert(g[i - 1].contains(x));
        } else {
            lemma_cells_ms_member(g, i - 1, x);
        }
    }
}

/// Every point on a region's serpentine path is a cell of the region, so
/// it lies in the world coordinate range when the region does.
proof fn lemma_serpentine_in_world(g: Seq<Seq<Point>>, x: Point)
    requires
        region_valid(g),
        forall|c: int, j: int|
            0 <= c < g.len() && 0 <= j < g[c].len() ==> crate::geo::in_world_range(
                #[trigger] g[c][j],
            ),
        serpentine(g).contains(x),
    ensures
        crate::geo::in_world_range(x),
{
    broadcast use vstd::multiset::group_multiset_axioms;
    broadcast use vstd::seq_lib::group_to_multiset_ensures;

    lemma_serpentine_cells(g);
    assert(serpentine(g).to_multiset().count(x) > 0);
    lemma_cells_ms_member(g, g.len() as int, x);
    let c = choose|c: int| 0 <= c < g.len() && (#[trigger] g[c]).contains(x);
    let j = choose|j: int| 0 <= j < g[c].len() && g[c][j] == x;
}

/// Number of false entries: the regions not yet visited.
pub open spec fn count_unvisited(vs: Seq<bool>, i: int) -> int
    decreases i,
{
    if i <= 0 {
        0
    } else {
        count_unvisited(vs, i - 1) + (if vs[i - 1] {
            0int
        } else {
            1int
        })
    }
}

/// Marking a node visited lowers the unvisited count.
proof fn lemma_count_unvisited_update(vs: Seq<bool>, u: int, i: int)
    requires
        0 <= u < vs.len(),
        i <= vs.len(),
        !vs[u],
    ensures
        count_unvisited(vs.update(u, true), i) == count_unvisited(vs, i) - (if u < i {
            1int
        } else {
            0int
        }),
        count_unvisited(vs, i) >= 0,
        u < i ==> count_unvisited(vs, i) >= 1,
        count_unvisited(vs.update(u, true), i) >= 0,
    decreases i,
{
    if i > 0 {
        lemma_count_unvisited_update(vs, u, i - 1);
        if u == i - 1 {
            assert(vs.update(u, true)[i - 1] == true);
        } else {
            assert(vs.update(u, true)[i - 1] == vs[i - 1]);
        }
    }
}

/// Linear membership test over an index list.
fn contains_index(list: &Vec<usize>, x: usize) -> (b: bool)
    ensures
        b == list@.contains(x),
{
    let mut k: usize = 0;
    while k < list.len()
        invariant
            0 <= k <= list@.len(),
            forall|t: int| 0 <= t < k ==> list@[t] != x,
        decreases list@.len() - k,
    {
        if list[k] == x {
            return true;
        }
        k = k + 1;
    }
    false
}

/// The first cell of every column of a region.
fn collect_firsts(region: &Vec<Vec<Point>>) -> (r: Vec<Point>)
    requires
        forall|c: int| 0 <= c < region@.len() ==> (#[trigger] region@[c])@.len() >= 1,
    ensures
        r@.len() == region@.len(),
        forall|k: int| 0 <= k < r@.len() ==> (#[trigger] r@[k]) == region@[k]@[0],
{
    let mut out: Vec<Point> = Vec::new();
    let mut c: usize = 0;
    while c < region.len()
        invariant
            0 <= c <= region@.len(),
            forall|k: int| 0 <= k < region@.len() ==> (#[trigger] region@[k])@.len() >= 1,
            out@.len() == c,
            forall|k: int| 0 <= k < c ==> (#[trigger] out@[k]) == region@[k]@[0],
        decreases region@.len() - c,
    {
        out.push(region[c][0]);
        c = c + 1;
    }
    out
}

/// The last cell of every column of a region.
fn collect_lasts(region: &Vec<Vec<Point>>) -> (r: Vec<Point>)
    requires
        forall|c: int| 0 <= c < region@.len() ==> (#[trigger] region@[c])@.len() >= 1,
    ensures
        r@.len() == region@.len(),
        forall|k: int| 0 <= k < r@.len() ==> (#[trigger] r@[k]) == region@[k]@[region@[k]@.len()
            - 1],
{
    let mut out: Vec<Point> = Vec::new();
    let mut c: usize = 0;
    while c < region.len()
        invariant
            0 <= c <= region@.len(),
            forall|k: int| 0 <= k < region@.len() ==> (#[trigger] region@[k])@.len() >= 1,
            out@.len() == c,
            forall|k: int| 0 <= k < c ==> (#[trigger] out@[k]) == region@[k]@[region@[k]@.len()
                - 1],
        decreases region@.len() - c,
    {
        let row = &region[c];
        out.push(row[row.len() - 1]);
        c = c + 1;
    }
    out
}

/// The three failure messages are pairwise distinct strings.
proof fn lemma_error_messages_differ()
    ensures
        "The input points must not be empty."@ != "Input vector is not rectangular."@,
        "The input points must not be empty."@ != "The rectangles are intersecting."@,
        "Input vector is not rectangular."@ != "The rectangles are intersecting."@,
{
    reveal_strlit("The input points must not be empty.");
    reveal_strlit("Input vector is not rectangular.");
    reveal_strlit("The rectangles are intersecting.");
    if "The input points must not be empty."@ == "Input vector is not rectangular."@ {
        assert("The input points must not be empty."@.len()
            == "Input vector is not rectangular."@.len());
    }
    if "The input points must not be empty."@ == "The rectangles are intersecting."@ {
        assert("The input points must not be empty."@.len()
            == "The rectangles are intersecting."@.len());
    }
    if "Input vector is not rectangular."@ == "The rectangles are intersecting."@ {
        assert("Input vector is not rectangular."@[0]
            == "The rectangles are intersecting."@[0]);
    }
}

/// Once the traversal stack is empty, the visited set is closed under
/// tree adjacency, so every node a walk can reach from a visited node is
/// itself visited.
proof fn lemma_walk_visited(
    adj: Seq<Vec<usize>>,
    vs: Seq<bool>,
    n: int,
    p: Seq<int>,
    a: int,
    b: int,
)
    requires
        crate::mst::is_walk(crate::mst::mst_edges(adj), n, p, a, b),
        adj.len() == n,
        vs.len() == n,
        vs[a],
        forall|u: int, v: int|
            0 <= u < n && 0 <= v < n && vs[u] && (crate::mst::adjacent(adj, u, v)
                || crate::mst::adjacent(adj, v, u)) ==> vs[v],
    ensures
        vs[b],
    decreases p.len(),
{
    if p.len() > 1 {
        let x = p[1];
        assert(crate::mst::has_edge(crate::mst::mst_edges(adj), p[0], p[1]));
        assert(crate::mst::adjacent(adj, a, x) || crate::mst::adjacent(adj, x, a));
        assert(vs[x]);
        let rest = p.drop_first();
        assert forall|k: int| 0 <= k < rest.len() - 1 implies crate::mst::has_edge(
            crate::mst::mst_edges(adj),
            #[trigger] rest[k],
            rest[k + 1],
        ) by {
            assert(rest[k] == p[k + 1] && rest[k + 1] == p[k + 2]);
            assert(crate::mst::has_edge(crate::mst::mst_edges(adj), p[k + 1], p[k + 2]));
        }
        assert(crate::mst::is_walk(crate::mst::mst_edges(adj), n, rest, x, b));
        lemma_walk_visited(adj, vs, n, rest, x, b);
    }
}

/// The serpentine path of a valid region is non-empty.
proof fn lemma_serpentine_nonempty(g: Seq<Seq<Point>>)
    requires
        region_valid(g),
    ensures
        serpentine(g).len() >= 1,
{
    if g.len() >= 2 {
        assert(bottom_row(g).len() == g.len());
    }
}

/// Combines several rectangular survey regions into one closed route: a
/// serpentine coverage path per region, spliced together along a minimum
/// spanning tree of the region adjacency graph, closed back to its first
/// point, with the start point inserted just before the route point
/// closest to it.
///
/// Fails on an empty region list, on a region whose columns do not all
/// share one height (or that has no cells), and on two regions whose
/// heading-frame boxes overlap; the checks apply in that order and no
/// partial route is returned.
///
/// On success the route holds every cell of every region exactly once
/// (each region traversed in serpentine order), plus the repeated closing
/// point and the start point.
#[verifier::rlimit(100)]
#[verifier::loop_isolation(false)]
pub fn rectangular_areas(
    points: Vec<Vec<Vec<Point>>>,
    start_point: Point,
    rotation: crate::rotation::Rotation,
) -> (r: Result<Vec<Point>, String>)
    requires
        crate::rotation::rotation_wf(rotation),
        crate::geo::in_world_range(start_point),
        all_regions_in_world(points.deep_view()),
    ensures
        r is Err <==> (points.deep_view().len() == 0 || !all_regions_valid(points.deep_view())
            || exists|i: int, j: int|
            0 <= i < j < points.deep_view().len() && boxes_intersect(
                region_box(points.deep_view(), rotation, i),
                region_box(points.deep_view(), rotation, j),
            )),
        r matches Err(m) ==> (m@ == "The input points must not be empty."@ <==> points.deep_view().len() == 0),
        r matches Err(m) ==> (m@ == "Input vector is not rectangular."@ <==> (
        points.deep_view().len() > 0 && !all_regions_valid(points.deep_view()))),
        r matches Ok(route) ==> route@.to_multiset() == paths_ms(
            points.deep_view(),
            points.deep_view().len() as int,
        ).insert(serpentine(points.deep_view()[0])[0]).insert(start_point),
        r matches Ok(route) ==> closed_loop_with_start(route@, start_point),
        r matches Ok(route) ==> route@.len() == paths_ms(
            points.deep_view(),
            points.deep_view().len() as int,
        ).len() + 2,
{
    broadcast use vstd::seq_lib::group_to_multiset_ensures;
    broadcast use vstd::multiset::group_multiset_axioms;

    let ghost pp = points.deep_view();
    proof {
        lemma_error_messages_differ();
        assert(pp.len() == points@.len());
        assert forall|r: int| 0 <= r < points@.len() implies pp[r] == (
        #[trigger] points@[r]).deep_view() by {}
        assert forall|r: int, c: int|
            0 <= r < points@.len() && 0 <= c < points@[r]@.len() implies #[trigger] pp[r][c] == points@[r]@[c]@ by {
            assert(pp[r] =~= Seq::new(
                points@[r]@.len(),
                |cc: int| points@[r]@[cc].deep_view(),
            ));
            assert(points@[r]@[c].deep_view() =~= points@[r]@[c]@);
        }
    }

    if points.is_empty() {
        proof {
            reveal_strlit("The input points must not be empty.");
            reveal_strlit("Input vector is not rectangular.");
        }
        return Err("The input points must not be empty.".to_string());
    }
    let n = points.len();

    // Validate that every region is a non-empty rectangle.
    let mut r0: usize = 0;
    while r0 < n
        invariant
            0 <= r0 <= n,
            forall|r: int| 0 <= r < r0 ==> region_valid(#[trigger] pp[r]),
        decreases n - r0,
    {
        let region = &points[r0];
        if region.is_empty() {
            proof {
                reveal_strlit("The input points must not be empty.");
                reveal_strlit("Input vector is not rectangular.");
                assert(!region_valid(pp[r0 as int]));
            }
            return Err("Input vector is not rectangular.".to_string());
        }
        let height = region[0].len();
        if height == 0 {
            proof {
                reveal_strlit("The input points must not be empty.");
                reveal_strlit("Input vector is not rectangular.");
                assert(!region_valid(pp[r0 as int]));
            }
            return Err("Input vector is not rectangular.".to_string());
        }
        let mut c0: usize = 1;
        while c0 < region.len()
            invariant
                1 <= c0 <= region@.len(),
                forall|c: int| 0 <= c < c0 ==> (#[trigger] region@[c])@.len() == height,
            decreases region@.len() - c0,
        {
            if region[c0].len() != height {
                proof {
                    reveal_strlit("The input points must not be empty.");
                    reveal_strlit("Input vector is not rectangular.");
                    assert(pp[r0 as int][c0 as int].len() != pp[r0 as int][0].len());
                    assert(!rectangular(pp[r0 as int]));
                    assert(!region_valid(pp[r0 as int]));
                }
                return Err("Input vector is not rectangular.".to_string());
            }
            c0 = c0 + 1;
        }
        proof {
            assert forall|c: int|
                0 <= c < pp[r0 as int].len() implies (#[trigger] pp[r0 as int][c]).len()
                == pp[r0 as int][0].len() by {
                assert(pp[r0 as int][c] == points@[r0 as int]@[c]@);
            }
            assert(region_valid(pp[r0 as int]));
        }
        r0 = r0 + 1;
    }
    proof {
        assert(all_regions_valid(pp));
    }

    // Build the complete weighted region graph, rejecting overlapping
    // heading-frame boxes.
    let mut weights: Vec<Vec<Option<(i64, Direction)>>> = Vec::new();
    let mut wi: usize = 0;
    while wi < n
        invariant
            0 <= wi <= n,
            weights@.len() == wi,
            forall|u: int| 0 <= u < wi ==> (#[trigger] weights@[u])@.len() == n,
            forall|u: int, v: int| 0 <= u < wi && 0 <= v < n ==> (#[trigger] weights@[u]@[v])
                is None,
        decreases n - wi,
    {
        let mut row: Vec<Option<(i64, Direction)>> = Vec::new();
        let mut wj: usize = 0;
        while wj < n
            invariant
                0 <= wj <= n,
                row@.len() == wj,
                forall|v: int| 0 <= v < wj ==> (#[trigger] row@[v]) is None,
            decreases n - wj,
        {
            row.push(None);
            wj = wj + 1;
        }
        weights.push(row);
        wi = wi + 1;
    }

    let mut i: usize = 0;
    while i < n - 1
        invariant
            0 <= i <= n - 1 || n == 1,
            weights@.len() == n,
            forall|u: int| 0 <= u < n ==> (#[trigger] weights@[u])@.len() == n,
            forall|u: int, v: int|
                0 <= u < n && 0 <= v < n ==> (((#[trigger] weights@[u]@[v]) is Some) <==> (u != v
                    && (if u < v {
                    u
                } else {
                    v
                }) < i)),
            forall|u: int, v: int|
                0 <= u < v < n && u < i ==> !boxes_intersect(
                    region_box(pp, rotation, u),
                    region_box(pp, rotation, v),
                ),
        decreases n - i,
    {
        let ri = &points[i];
        let i_height = ri[0].len();
        let i_width = ri.len();
        proof {
            assert(pp[i as int][i_width - 1].len() == pp[i as int][0].len());
            assert(points@[i as int]@[i_width - 1]@.len() == i_height);
        }
        let a0 = rotation.transform(ri[0][i_height - 1]);
        let a1 = rotation.transform(ri[i_width - 1][0]);
        let a = (a0, a1);
        proof {
            assert(a == region_box(pp, rotation, i as int));
        }
        let mut j: usize = i + 1;
        while j < n
            invariant
                i + 1 <= j <= n,
                weights@.len() == n,
                forall|u: int| 0 <= u < n ==> (#[trigger] weights@[u])@.len() == n,
                forall|u: int, v: int|
                    0 <= u < n && 0 <= v < n ==> (((#[trigger] weights@[u]@[v]) is Some) <==> (u
                        != v && ((if u < v {
                        u
                    } else {
                        v
                    }) < i || ((if u < v {
                        u
                    } else {
                        v
                    }) == i && (if u < v {
                        v
                    } else {
                        u
                    }) < j)))),
                forall|u: int, v: int|
                    0 <= u < v < n && (u < i || (u == i && v < j)) ==> !boxes_intersect(
                        region_box(pp, rotation, u),
                        region_box(pp, rotation, v),
                    ),
            decreases n - j,
        {
            let rj = &points[j];
            let j_height = rj[0].len();
            let j_width = rj.len();
            proof {
                assert(pp[j as int][j_width - 1].len() == pp[j as int][0].len());
                assert(points@[j as int]@[j_width - 1]@.len() == j_height);
            }
            let b0 = rotation.transform(rj[0][j_height - 1]);
            let b1 = rotation.transform(rj[j_width - 1][0]);
            let b = (b0, b1);
            proof {
                assert(b == region_box(pp, rotation, j as int));
            }
            let c1 = b0.x >= a0.x && b0.x <= a1.x && b0.y >= a1.y && b0.y <= a0.y;
            let c2 = b1.x >= a0.x && b1.x <= a1.x && b1.y >= a1.y && b1.y <= a0.y;
            let c3 = b0.x >= a0.x && b0.x <= a1.x && b1.y >= a1.y && b1.y <= a0.y;
            let c4 = b1.x >= a0.x && b1.x <= a1.x && b0.y >= a1.y && b0.y <= a0.y;
            let inter = c1 || c2 || c3 || c4;
            if inter {
                proof {
                    reveal_strlit("The input points must not be empty.");
                    reveal_strlit("Input vector is not rectangular.");
                    reveal_strlit("The rectangles are intersecting.");
                    assert(boxes_intersect(
                        region_box(pp, rotation, i as int),
                        region_box(pp, rotation, j as int),
                    ));
                }
                return Err("The rectangles are intersecting.".to_string());
            }
            let (w, direction) = rectangles_shortest_path(a, b);
            let absw = if w >= 0 {
                w
            } else {
                -w
            };
            let opp = direction.opposite();
            weights[i].set(j, Some((w, direction)));
            weights[j].set(i, Some((absw, opp)));
            proof {
                assert(!boxes_intersect(
                    region_box(pp, rotation, i as int),
                    region_box(pp, rotation, j as int),
                ));
            }
            j = j + 1;
        }
        i = i + 1;
    }
    proof {
        assert(crate::mst::graph_complete(weights@)) by {
            assert forall|u: int, v: int|
                0 <= u < n && 0 <= v < n implies (((#[trigger] weights@[u]@[v]) is Some) <==> u
                != v) by {}
        }
    }

    // Serpentine coverage path per region.
    let mut region_paths: Vec<Vec<Point>> = Vec::new();
    let mut pr: usize = 0;
    while pr < n
        invariant
            0 <= pr <= n,
            region_paths@.len() == pr,
            forall|r: int| 0 <= r < pr ==> (#[trigger] region_paths@[r])@ == serpentine(pp[r]),
        decreases n - pr,
    {
        proof {
            assert(region_valid(pp[pr as int]));
            assert forall|c: int|
                0 <= c < points@[pr as int]@.len() implies (#[trigger] points@[pr as int]@[c])@.len()
                >= 1 by {
                assert(pp[pr as int][c] == points@[pr as int]@[c]@);
                assert(pp[pr as int][c].len() == pp[pr as int][0].len());
            }
        }
        let path = serpentine_path(&points[pr]);
        region_paths.push(path);
        pr = pr + 1;
    }

    let mst = crate::mst::boruvka_mst(&weights);

    // Depth-first traversal of the spanning tree, splicing each newly
    // reached region's path into the running route.
    let mut result_vec: Vec<Point> = Vec::new();
    let mut k0: usize = 0;
    let first_path_len = region_paths[0].len();
    proof {
        lemma_serpentine_nonempty(pp[0]);
    }
    while k0 < first_path_len
        invariant
            0 <= k0 <= first_path_len,
            result_vec@ =~= serpentine(pp[0]).take(k0 as int),
        decreases first_path_len - k0,
    {
        let row = &region_paths[0];
        result_vec.push(row[k0]);
        proof {
            assert(result_vec@ =~= serpentine(pp[0]).take(k0 + 1));
        }
        k0 = k0 + 1;
    }
    proof {
        assert(result_vec@ =~= serpentine(pp[0]));
        assert forall|k: int|
            0 <= k < result_vec@.len() implies crate::geo::in_world_range(
            #[trigger] result_vec@[k],
        ) by {
            assert(serpentine(pp[0]).contains(result_vec@[k]));
            lemma_serpentine_in_world_all(pp, 0, result_vec@[k]);
        }
    }

    let mut visited: Vec<bool> = Vec::new();
    let mut vv: usize = 0;
    while vv < n
        invariant
            0 <= vv <= n,
            visited@.len() == vv,
            forall|k: int| 0 <= k < vv ==> !(#[trigger] visited@[k]),
        decreases n - vv,
    {
        visited.push(false);
        vv = vv + 1;
    }
    let mut stack: Vec<usize> = Vec::new();
    stack.push(0);
    let mut done: Vec<usize> = Vec::new();
    done.push(0);
    let ghost mut done_set: Set<int> = Set::empty().insert(0);
    proof {
        lemma_set_paths_insert(pp, Set::empty(), 0, n as int);
        lemma_set_paths_empty(pp, n as int);
        assert(result_vec@.to_multiset() == set_paths_ms(pp, done_set, n as int));
        assert(stack@.len() == 1 && stack@[0] == 0usize);
        assert(stack@.contains(0usize));
    }

    while stack.len() > 0
        invariant
            visited@.len() == n,
            forall|t: int| 0 <= t < stack@.len() ==> ((#[trigger] stack@[t]) as int) < n,
            forall|t: int| 0 <= t < done@.len() ==> ((#[trigger] done@[t]) as int) < n,
            forall|x: usize| #[trigger] done@.contains(x) <==> ((x as int) < n && done_set.contains(
                x as int,
            )),
            done_set.contains(0),
            forall|q: int| #[trigger] done_set.contains(q) ==> 0 <= q < n,
            forall|t: int| 0 <= t < stack@.len() ==> done_set.contains((#[trigger] stack@[t]) as int),
            forall|u: int| 0 <= u < n && #[trigger] visited@[u] ==> done_set.contains(u),
            stack@.contains(0usize) || visited@[0],
            forall|u: int, k: int|
                0 <= u < n && visited@[u] && 0 <= k < mst@[u]@.len() ==> (visited@[(
                #[trigger] mst@[u]@[k]) as int] || stack@.contains(mst@[u]@[k])),
            result_vec@.to_multiset() == set_paths_ms(pp, done_set, n as int),
            result_vec@.len() >= 1,
            result_vec@[0] == serpentine(pp[0])[0],
            forall|k: int| 0 <= k < result_vec@.len() ==> crate::geo::in_world_range(
                #[trigger] result_vec@[k],
            ),
        decreases count_unvisited(visited@, n as int), stack@.len(),
    {
        let ghost st0 = stack@;
        let node_opt = stack.pop();
        let node = node_opt.unwrap();
        proof {
            assert(node == st0[st0.len() - 1]);
            assert(stack@ =~= st0.drop_last());
            assert(st0.contains(node));
            assert forall|x: usize| #[trigger] st0.contains(x) && x != node implies stack@.contains(
                x,
            ) by {
                lemma_drop_last_contains(st0, x);
            }
        }
        if !visited[node] {
            // Splice every not-yet-done neighbor's path into the route.
            let deg = mst[node].len();
            let mut kk: usize = 0;
            while kk < deg
                invariant
                    0 <= kk <= deg,
                    !visited@[node as int],
                    forall|t: int| 0 <= t < done@.len() ==> ((#[trigger] done@[t]) as int) < n,
                    forall|x: usize| #[trigger] done@.contains(x) <==> ((x as int) < n
                        && done_set.contains(x as int)),
                    done_set.contains(0),
                    done_set.contains(node as int),
                    forall|q: int| #[trigger] done_set.contains(q) ==> 0 <= q < n,
                    forall|t: int| 0 <= t < kk ==> done_set.contains(
                        (#[trigger] mst@[node as int]@[t]) as int,
                    ),
                    forall|u: int| 0 <= u < n && #[trigger] visited@[u] ==> done_set.contains(u),
                    forall|t: int| 0 <= t < stack@.len() ==> done_set.contains(
                        (#[trigger] stack@[t]) as int,
                    ),
                    result_vec@.to_multiset() == set_paths_ms(pp, done_set, n as int),
                    result_vec@.len() >= 1,
                    result_vec@[0] == serpentine(pp[0])[0],
                    forall|k: int| 0 <= k < result_vec@.len() ==> crate::geo::in_world_range(
                        #[trigger] result_vec@[k],
                    ),
                decreases deg - kk,
            {
                let jr = mst[node][kk];
                if !contains_index(&done, jr) {
                    proof {
                        assert(mst@[node as int]@[kk as int] == jr);
                        assert(mst@[node as int]@.contains(jr));
                        assert(crate::mst::adjacent(mst@, node as int, jr as int));
                        assert(node != jr);
                    }
                    let ghost done_pre = done@;
                    splice_region(
                        &mut result_vec,
                        &points,
                        &region_paths,
                        &weights,
                        node,
                        jr,
                        Ghost(pp),
                        Ghost(done_set),
                    );
                    done.push(jr);
                    proof {
                        lemma_set_paths_insert(pp, done_set, jr as int, n as int);
                        done_set = done_set.insert(jr as int);
                        assert forall|x: usize| #[trigger] done@.contains(x) implies ((x as int)
                            < n && done_set.contains(x as int)) by {
                            lemma_push_contains_usize(done_pre, jr, x);
                        }
                        assert forall|x: usize| (x as int) < n && done_set.contains(
                            x as int,
                        ) implies #[trigger] done@.contains(x) by {
                            lemma_push_contains_usize(done_pre, jr, x);
                        }
                    }
                }
                kk = kk + 1;
            }
            let ghost vs_pre = visited@;
            visited.set(node, true);
            proof {
                lemma_count_unvisited_update(vs_pre, node as int, n as int);
                if node != 0 && !visited@[0] {
                    assert(st0.contains(0usize));
                    lemma_drop_last_contains(st0, 0);
                }
            }
            // Push the neighbors so the traversal continues through them.
            let mut k2: usize = 0;
            while k2 < deg
                invariant
                    0 <= k2 <= deg,
                    visited@ == vs_pre.update(node as int, true),
                    forall|t: int| 0 <= t < stack@.len() ==> ((#[trigger] stack@[t]) as int) < n,
                    forall|t: int| 0 <= t < stack@.len() ==> done_set.contains(
                        (#[trigger] stack@[t]) as int,
                    ),
                    stack@.contains(0usize) || visited@[0],
                    forall|x: usize| #[trigger] st0.drop_last().contains(x) ==> stack@.contains(x),
                    forall|t: int| 0 <= t < k2 ==> (visited@[(#[trigger] mst@[node as int]@[t])
                        as int] || stack@.contains(mst@[node as int]@[t])),
                decreases deg - k2,
            {
                let v2 = mst[node][k2];
                let ghost st_pre = stack@;
                if !visited[v2] {
                    stack.push(v2);
                    proof {
                        assert(stack@[stack@.len() - 1] == v2);
                        assert(stack@.contains(v2));
                        assert forall|x: usize| #[trigger] st_pre.contains(x) implies stack@.contains(
                            x,
                        ) by {
                            let idx = choose|idx: int| 0 <= idx < st_pre.len() && st_pre[idx] == x;
                            assert(stack@[idx] == x);
                        }
                    }
                }
                k2 = k2 + 1;
            }
            proof {
                // visited closure is restored: the current node's
                // neighbors were all pushed or already visited, and
                // every other visited node's neighbors are either
                // visited, still on the stack, or are the current node,
                // which is visited now.
                assert forall|u: int, k: int|
                    0 <= u < n && visited@[u] && 0 <= k < mst@[u]@.len() implies (visited@[(
                    #[trigger] mst@[u]@[k]) as int] || stack@.contains(mst@[u]@[k])) by {
                    let nb = mst@[u]@[k];
                    if u == node as int {
                    } else {
                        assert(vs_pre[u]);
                        if vs_pre[nb as int] {
                        } else if nb == node {
                            assert(visited@[nb as int]);
                        } else {
                            assert(st0.contains(nb));
                            assert(st0.drop_last().contains(nb));
                        }
                    }
                }
            }
        } else {
            proof {
                assert forall|u: int, k: int|
                    0 <= u < n && visited@[u] && 0 <= k < mst@[u]@.len() implies (visited@[(
                    #[trigger] mst@[u]@[k]) as int] || stack@.contains(mst@[u]@[k])) by {
                    let nb = mst@[u]@[k];
                    if !visited@[nb as int] && nb != node {
                        assert(st0.contains(nb));
                    }
                }
                if !visited@[0] {
                    assert(st0.contains(0usize));
                    if node != 0 {
                        assert(stack@.contains(0usize));
                    }
                }
            }
        }
    }

    // The traversal reached every region.
    proof {
        assert(visited@[0]);
        assert forall|u: int| 0 <= u < n implies visited@[u] by {
            assert(crate::mst::connected(crate::mst::mst_edges(mst@), n as int, 0, u));
            let walk = choose|p: Seq<int>|
                crate::mst::is_walk(crate::mst::mst_edges(mst@), n as int, p, 0, u);
            assert forall|uu: int, vv2: int|
                0 <= uu < n && 0 <= vv2 < n && visited@[uu] && (crate::mst::adjacent(
                    mst@,
                    uu,
                    vv2,
                ) || crate::mst::adjacent(mst@, vv2, uu)) implies visited@[vv2] by {
                if crate::mst::adjacent(mst@, uu, vv2) {
                    let kk2 = choose|kk2: int|
                        0 <= kk2 < mst@[uu]@.len() && mst@[uu]@[kk2] == (vv2 as usize);
                    assert(visited@[vv2] || stack@.contains(mst@[uu]@[kk2]));
                }
            }
            lemma_walk_visited(mst@, visited@, n as int, walk, 0, u);
        }
        assert forall|q: int| 0 <= q < n implies done_set.contains(q) by {
            assert(visited@[q]);
        }
        lemma_set_paths_full(pp, done_set, n as int);
    }

    // Close the route and insert the start point before the closest
    // route point.
    let closing = result_vec[0];
    result_vec.push(closing);
    proof {
        assert(result_vec@.to_multiset() == paths_ms(pp, n as int).insert(serpentine(pp[0])[0]));
    }

    let mut closest_idx: usize = 0;
    let mut min_distance = euclidean_distance(&start_point, &result_vec[0]);
    let mut sc: usize = 1;
    while sc < result_vec.len()
        invariant
            0 <= closest_idx < sc <= result_vec@.len(),
            min_distance == dist(start_point, result_vec@[closest_idx as int]),
        decreases result_vec@.len() - sc,
    {
        let d = euclidean_distance(&start_point, &result_vec[sc]);
        if d < min_distance {
            min_distance = d;
            closest_idx = sc;
        }
        sc = sc + 1;
    }
    let ghost before_insert = result_vec@;
    result_vec.insert(closest_idx, start_point);
    proof {
        vstd::seq_lib::to_multiset_insert(before_insert, closest_idx as int, start_point);
        // removing the inserted start point leaves the closed loop
        assert(result_vec@.remove(closest_idx as int) =~= before_insert);
        assert(result_vec@[closest_idx as int] == start_point);
        assert(before_insert[0] == serpentine(pp[0])[0]);
        assert(before_insert[before_insert.len() - 1] == serpentine(pp[0])[0]);
        assert(before_insert.len() >= 2);
        assert(result_vec@.remove(closest_idx as int).len() >= 2);
        assert(result_vec@.remove(closest_idx as int)[0] == result_vec@.remove(
            closest_idx as int,
        )[result_vec@.remove(closest_idx as int).len() - 1]);
        assert(closed_loop_with_start(result_vec@, start_point));
        assert(result_vec@.len() == result_vec@.to_multiset().len());
    }
    Ok(result_vec)
}

/// A cell of a region already spliced into the route is counted by the
/// route's multiset.
proof fn lemma_cell_in_paths(
    pp: Seq<Seq<Seq<Point>>>,
    s: Set<int>,
    n: int,
    r: int,
    c: int,
    j: int,
)
    requires
        n == pp.len(),
        0 <= r < n,
        s.contains(r),
        region_valid(pp[r]),
        0 <= c < pp[r].len(),
        0 <= j < pp[r][c].len(),
    ensures
        set_paths_ms(pp, s, n).count(pp[r][c][j]) > 0,
{
    broadcast use vstd::seq_lib::group_to_multiset_ensures;
    broadcast use vstd::multiset::group_multiset_axioms;

    let x = pp[r][c][j];
    lemma_serpentine_cells(pp[r]);
    lemma_cells_ms_count(pp[r], pp[r].len() as int, c, x);
    assert(pp[r][c].contains(x));
    assert(pp[r][c].to_multiset().count(x) > 0);
    lemma_set_paths_count(pp, s, n, r, x);
}

/// Splices the serpentine path of region `jr` into the route, entering
/// and leaving at the geometrically nearest boundary cells according to
/// the regions' relative placement.
#[verifier::rlimit(100)]
fn splice_region(
    route: &mut Vec<Point>,
    points: &Vec<Vec<Vec<Point>>>,
    region_paths: &Vec<Vec<Point>>,
    weights: &Vec<Vec<Option<(i64, Direction)>>>,
    node: usize,
    jr: usize,
    Ghost(pp): Ghost<Seq<Seq<Seq<Point>>>>,
    Ghost(done_set): Ghost<Set<int>>,
)
    requires
        pp == points.deep_view(),
        pp.len() == points@.len(),
        (node as int) < pp.len(),
        (jr as int) < pp.len(),
        node != jr,
        all_regions_valid(pp),
        all_regions_in_world(pp),
        forall|r: int| 0 <= r < points@.len() ==> #[trigger] pp[r] == points@[r].deep_view(),
        forall|r: int, c: int|
            0 <= r < points@.len() && 0 <= c < points@[r]@.len() ==> #[trigger] pp[r][c]
                == points@[r]@[c]@,
        region_paths@.len() == pp.len(),
        forall|r: int| 0 <= r < pp.len() ==> (#[trigger] region_paths@[r])@ == serpentine(pp[r]),
        weights@.len() == pp.len(),
        forall|u: int| 0 <= u < pp.len() ==> (#[trigger] weights@[u])@.len() == pp.len(),
        crate::mst::graph_complete(weights@),
        done_set.contains(node as int),
        forall|q: int| #[trigger] done_set.contains(q) ==> 0 <= q < pp.len(),
        old(route)@.to_multiset() == set_paths_ms(pp, done_set, pp.len() as int),
        old(route)@.len() >= 1,
        forall|k: int| 0 <= k < old(route)@.len() ==> crate::geo::in_world_range(
            #[trigger] old(route)@[k],
        ),
    ensures
        final(route)@.to_multiset() == old(route)@.to_multiset().add(
            serpentine(pp[jr as int]).to_multiset(),
        ),
        final(route)@.len() >= 1,
        final(route)@[0] == old(route)@[0],
        forall|k: int| 0 <= k < final(route)@.len() ==> crate::geo::in_world_range(
            #[trigger] final(route)@[k],
        ),
{
    broadcast use vstd::seq_lib::group_to_multiset_ensures;
    broadcast use vstd::multiset::group_multiset_axioms;

    let ghost n = pp.len() as int;
    let ghost r0 = route@;
    let gi = &points[node];
    let gj = &points[jr];
    proof {
        assert(region_valid(pp[node as int]));
        assert(region_valid(pp[jr as int]));
        assert forall|c: int|
            0 <= c < points@[node as int]@.len() implies (
            #[trigger] points@[node as int]@[c])@.len() >= 1 by {
            assert(pp[node as int][c] == points@[node as int]@[c]@);
            assert(pp[node as int][c].len() == pp[node as int][0].len());
        }
        assert forall|c: int|
            0 <= c < points@[jr as int]@.len() implies (
            #[trigger] points@[jr as int]@[c])@.len() >= 1 by {
            assert(pp[jr as int][c] == points@[jr as int]@[c]@);
            assert(pp[jr as int][c].len() == pp[jr as int][0].len());
        }
    }
    let entry = weights[node][jr];
    let direction = match entry {
        Some(e) => e.1,
        None => {
            proof {
                assert(weights@[node as int]@[jr as int] is Some);
            }
            Direction::U
        },
    };
    // entry and exit cells of the two regions, by relative placement
    let (at_element, element): (Point, Point) = match direction {
        Direction::U => {
            let points1 = collect_lasts(gi);
            let points2 = collect_firsts(gj);
            proof {
                assert forall|k: int|
                    0 <= k < points1@.len() implies in_metric_range(#[trigger] points1@[k]) by {
                    assert(pp[node as int][k] == points@[node as int]@[k]@);
                    assert(points1@[k] == pp[node as int][k][pp[node as int][k].len() - 1]);
                    assert(crate::geo::in_world_range(points1@[k]));
                }
                assert forall|k: int|
                    0 <= k < points2@.len() implies in_metric_range(#[trigger] points2@[k]) by {
                    assert(pp[jr as int][k] == points@[jr as int]@[k]@);
                    assert(points2@[k] == pp[jr as int][k][0]);
                    assert(crate::geo::in_world_range(points2@[k]));
                }
            }
            let pr = pick_pair(&points1, &points2, Ghost(pp), Ghost(node as int), Ghost(jr as int));
            proof {
                let ii = choose|ii: int| 0 <= ii < points1@.len() && pr.0 == points1@[ii];
                assert(pp[node as int][ii] == points@[node as int]@[ii]@);
                assert(pr.0 == pp[node as int][ii][pp[node as int][ii].len() - 1]);
                let jj = choose|jj: int| 0 <= jj < points2@.len() && pr.1 == points2@[jj];
                assert(pp[jr as int][jj] == points@[jr as int]@[jj]@);
                assert(pr.1 == pp[jr as int][jj][0]);
                assert(exists|c: int, j: int|
                    0 <= c < pp[node as int].len() && 0 <= j < pp[node as int][c].len()
                        && #[trigger] pp[node as int][c][j] == pr.0);
                assert(exists|c: int, j: int|
                    0 <= c < pp[jr as int].len() && 0 <= j < pp[jr as int][c].len()
                        && #[trigger] pp[jr as int][c][j] == pr.1);
            }
            pr
        },
        Direction::D => {
            let points1 = collect_firsts(gi);
            let points2 = collect_lasts(gj);
            proof {
                assert forall|k: int|
                    0 <= k < points1@.len() implies in_metric_range(#[trigger] points1@[k]) by {
                    assert(pp[node as int][k] == points@[node as int]@[k]@);
                    assert(points1@[k] == pp[node as int][k][0]);
                    assert(crate::geo::in_world_range(points1@[k]));
                }
                assert forall|k: int|
                    0 <= k < points2@.len() implies in_metric_range(#[trigger] points2@[k]) by {
                    assert(pp[jr as int][k] == points@[jr as int]@[k]@);
                    assert(points2@[k] == pp[jr as int][k][pp[jr as int][k].len() - 1]);
                    assert(crate::geo::in_world_range(points2@[k]));
                }
            }
            let pr = pick_pair(&points1, &points2, Ghost(pp), Ghost(node as int), Ghost(jr as int));
            proof {
                let ii = choose|ii: int| 0 <= ii < points1@.len() && pr.0 == points1@[ii];
                assert(pp[node as int][ii] == points@[node as int]@[ii]@);
                assert(pr.0 == pp[node as int][ii][0]);
                let jj = choose|jj: int| 0 <= jj < points2@.len() && pr.1 == points2@[jj];
                assert(pp[jr as int][jj] == points@[jr as int]@[jj]@);
                assert(pr.1 == pp[jr as int][jj][pp[jr as int][jj].len() - 1]);
                assert(exists|c: int, j: int|
                    0 <= c < pp[node as int].len() && 0 <= j < pp[node as int][c].len()
                        && #[trigger] pp[node as int][c][j] == pr.0);
                assert(exists|c: int, j: int|
                    0 <= c < pp[jr as int].len() && 0 <= j < pp[jr as int][c].len()
                        && #[trigger] pp[jr as int][c][j] == pr.1);
            }
            pr
        },
        Direction::L => {
            let w2 = gj.len();
            let col1 = &gi[0];
            let col2 = &gj[w2 - 1];
            proof {
                assert(pp[node as int][0] == points@[node as int]@[0]@);
                assert(pp[jr as int][w2 - 1] == points@[jr as int]@[w2 - 1]@);
                assert forall|k: int|
                    0 <= k < col1@.len() implies in_metric_range(#[trigger] col1@[k]) by {
                    assert(col1@[k] == pp[node as int][0][k]);
                    assert(crate::geo::in_world_range(col1@[k]));
                }
                assert forall|k: int|
                    0 <= k < col2@.len() implies in_metric_range(#[trigger] col2@[k]) by {
                    assert(col2@[k] == pp[jr as int][w2 - 1][k]);
                    assert(crate::geo::in_world_range(col2@[k]));
                }
            }
            let pr = pick_pair(col1, col2, Ghost(pp), Ghost(node as int), Ghost(jr as int));
            proof {
                let ii = choose|ii: int| 0 <= ii < col1@.len() && pr.0 == col1@[ii];
                assert(pr.0 == pp[node as int][0][ii]);
                let jj = choose|jj: int| 0 <= jj < col2@.len() && pr.1 == col2@[jj];
                assert(pr.1 == pp[jr as int][w2 - 1][jj]);
                assert(exists|c: int, j: int|
                    0 <= c < pp[node as int].len() && 0 <= j < pp[node as int][c].len()
                        && #[trigger] pp[node as int][c][j] == pr.0);
                assert(exists|c: int, j: int|
                    0 <= c < pp[jr as int].len() && 0 <= j < pp[jr as int][c].len()
                        && #[trigger] pp[jr as int][c][j] == pr.1);
            }
            pr
        },
        Direction::R => {
            let w1 = gi.len();
            let col1 = &gi[w1 - 1];
            let col2 = &gj[0];
            proof {
                assert(pp[node as int][w1 - 1] == points@[node as int]@[w1 - 1]@);
                assert(pp[jr as int][0] == points@[jr as int]@[0]@);
                assert forall|k: int|
                    0 <= k < col1@.len() implies in_metric_range(#[trigger] col1@[k]) by {
                    assert(col1@[k] == pp[node as int][w1 - 1][k]);
                    assert(crate::geo::in_world_range(col1@[k]));
                }
                assert forall|k: int|
                    0 <= k < col2@.len() implies in_metric_range(#[trigger] col2@[k]) by {
                    assert(col2@[k] == pp[jr as int][0][k]);
                    assert(crate::geo::in_world_range(col2@[k]));
                }
            }
            let pr = pick_pair(col1, col2, Ghost(pp), Ghost(node as int), Ghost(jr as int));
            proof {
                let ii = choose|ii: int| 0 <= ii < col1@.len() && pr.0 == col1@[ii];
                assert(pr.0 == pp[node as int][w1 - 1][ii]);
                let jj = choose|jj: int| 0 <= jj < col2@.len() && pr.1 == col2@[jj];
                assert(pr.1 == pp[jr as int][0][jj]);
                assert(exists|c: int, j: int|
                    0 <= c < pp[node as int].len() && 0 <= j < pp[node as int][c].len()
                        && #[trigger] pp[node as int][c][j] == pr.0);
                assert(exists|c: int, j: int|
                    0 <= c < pp[jr as int].len() && 0 <= j < pp[jr as int][c].len()
                        && #[trigger] pp[jr as int][c][j] == pr.1);
            }
            pr
        },
        Direction::UL => {
            let hi = gi[0].len();
            let w2 = gj.len();
            let at = gi[0][hi - 1];
            let el = gj[w2 - 1][0];
            proof {
                assert(pp[node as int][0][hi - 1] == at);
                assert(pp[jr as int][w2 - 1][0] == el);
            }
            (at, el)
        },
        Direction::UR => {
            let w1 = gi.len();
            let hi = gi[0].len();
            proof {
                assert(pp[node as int][w1 - 1].len() == pp[node as int][0].len());
                assert(points@[node as int]@[w1 - 1]@.len() == hi);
            }
            let at = gi[w1 - 1][hi - 1];
            let el = gj[0][0];
            proof {
                assert(pp[node as int][w1 - 1][hi - 1] == at);
                assert(pp[jr as int][0][0] == el);
            }
            (at, el)
        },
        Direction::DL => {
            let w2 = gj.len();
            let hj = gj[0].len();
            proof {
                assert(pp[jr as int][w2 - 1].len() == pp[jr as int][0].len());
                assert(points@[jr as int]@[w2 - 1]@.len() == hj);
            }
            let at = gi[0][0];
            let el = gj[w2 - 1][hj - 1];
            proof {
                assert(pp[node as int][0][0] == at);
                assert(pp[jr as int][w2 - 1][hj - 1] == el);
            }
            (at, el)
        },
        Direction::DR => {
            let w1 = gi.len();
            let hj = gj[0].len();
            let at = gi[w1 - 1][0];
            let el = gj[0][hj - 1];
            proof {
                assert(pp[node as int][w1 - 1][0] == at);
                assert(pp[jr as int][0][hj - 1] == el);
            }
            (at, el)
        },
    };
    proof {
        // both chosen points are cells of their regions
        let gsj = pp[jr as int];
        assert(exists|c: int, j: int|
            0 <= c < pp[node as int].len() && 0 <= j < pp[node as int][c].len() && #[trigger] pp[node as int][c][j] == at_element);
        assert(exists|c: int, j: int|
            0 <= c < pp[jr as int].len() && 0 <= j < pp[jr as int][c].len() && #[trigger] pp[jr as int][c][j] == element);
        let (ci, ji) = choose|c: int, j: int|
            0 <= c < pp[node as int].len() && 0 <= j < pp[node as int][c].len() && #[trigger] pp[node as int][c][j] == at_element;
        lemma_cell_in_paths(pp, done_set, n, node as int, ci, ji);
        assert(route@.to_multiset().count(at_element) > 0);
        assert(route@.contains(at_element));
        let (cj, jj) = choose|c: int, j: int|
            0 <= c < pp[jr as int].len() && 0 <= j < pp[jr as int][c].len() && #[trigger] pp[jr as int][c][j] == element;
        lemma_serpentine_contains(gsj, cj, jj);
        assert(region_paths@[jr as int]@.contains(element));
    }
    let ok = insert_route_after(route, &region_paths[jr], element, at_element);
    proof {
        assert(ok);
        assert(route@[0] == r0[0]) by {
            assert(route@ == r0.take(first_index_of(r0, at_element) + 1)
                + region_paths@[jr as int]@.skip(first_index_of(region_paths@[jr as int]@, element))
                + region_paths@[jr as int]@.take(first_index_of(region_paths@[jr as int]@, element))
                + r0.skip(first_index_of(r0, at_element) + 1));
            lemma_first_index(r0, at_element, 0);
        }
        assert(route@.len() >= 1) by {
            lemma_first_index(r0, at_element, 0);
        }
        assert forall|k: int|
            0 <= k < route@.len() implies crate::geo::in_world_range(#[trigger] route@[k]) by {
            let x = route@[k];
            assert(route@.contains(x));
            assert(route@.to_multiset().count(x) > 0);
            if r0.to_multiset().count(x) > 0 {
                assert(r0.contains(x));
                let t = choose|t: int| 0 <= t < r0.len() && r0[t] == x;
            } else {
                assert(serpentine(pp[jr as int]).to_multiset().count(x) > 0);
                assert(serpentine(pp[jr as int]).contains(x));
                lemma_serpentine_in_world_all(pp, jr as int, x);
            }
        }
    }
}

/// A point on the serpentine path of region `r` lies in the world range.
proof fn lemma_serpentine_in_world_all(pp: Seq<Seq<Seq<Point>>>, r: int, x: Point)
    requires
        0 <= r < pp.len(),
        all_regions_valid(pp),
        all_regions_in_world(pp),
        serpentine(pp[r]).contains(x),
    ensures
        crate::geo::in_world_range(x),
{
    assert forall|c: int, j: int|
        0 <= c < pp[r].len() && 0 <= j < pp[r][c].len() implies crate::geo::in_world_range(
        #[trigger] pp[r][c][j],
    ) by {}
    lemma_serpentine_in_world(pp[r], x);
}

/// The closest pair between two non-empty candidate cell lists of two
/// regions: one point from each list at minimum distance.
fn pick_pair(
    points1: &Vec<Point>,
    points2: &Vec<Point>,
    Ghost(pp): Ghost<Seq<Seq<Seq<Point>>>>,
    Ghost(rn): Ghost<int>,
    Ghost(rj): Ghost<int>,
) -> (r: (Point, Point))
    requires
        points1@.len() >= 1,
        points2@.len() >= 1,
        forall|k: int| 0 <= k < points1@.len() ==> in_metric_range(#[trigger] points1@[k]),
        forall|k: int| 0 <= k < points2@.len() ==> in_metric_range(#[trigger] points2@[k]),
    ensures
        exists|ii: int| 0 <= ii < points1@.len() && r.0 == #[trigger] points1@[ii],
        exists|jj: int| 0 <= jj < points2@.len() && r.1 == #[trigger] points2@[jj],
{
    let pair_opt = find_minimal_pair(points1, points2);
    let pair = pair_opt.unwrap();
    proof {
        let (ii, jj) = choose|ii: int, jj: int|
            0 <= ii < points1@.len() && 0 <= jj < points2@.len() && pair.0 == points1@[ii]
                && pair.1 == points2@[jj];
        assert(points1@[ii] == pair.0);
        assert(points2@[jj] == pair.1);
    }
    (pair.0, pair.1)
}

/// Appending to an index list adds exactly the appended index to its
/// membership.
proof fn lemma_push_contains_usize(s: Seq<usize>, x: usize, y: usize)
    ensures
        s.push(x).contains(y) <==> (s.contains(y) || y == x),
{
    if s.push(x).contains(y) {
        let k = choose|k: int| 0 <= k < s.push(x).len() && s.push(x)[k] == y;
        if k < s.len() {
            assert(s[k] == y);
        }
    }
    if s.contains(y) {
        let k = choose|k: int| 0 <= k < s.len() && s[k] == y;
        assert(s.push(x)[k] == y);
    }
    if y == x {
        assert(s.push(x)[s.len() as int] == x);
    }
}

/// Removing the last element of an index list keeps every other value's
/// membership.
proof fn lemma_drop_last_contains(s: Seq<usize>, y: usize)
    requires
        s.len() >= 1,
        s.contains(y),
        y != s[s.len() - 1],
    ensures
        s.drop_last().contains(y),
{
    let k = choose|k: int| 0 <= k < s.len() && s[k] == y;
    assert(s.drop_last()[k] == y);
}

/// The empty index set sums to the empty multiset.
proof fn lemma_set_paths_empty(p: Seq<Seq<Seq<Point>>>, i: int)
    ensures
        set_paths_ms(p, Set::empty(), i) == Multiset::<Point>::empty(),
    decreases i,
{
    if i > 0 {
        lemma_set_paths_empty(p, i - 1);
    }
}

} // verus!
