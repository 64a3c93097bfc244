//! Route ordering and route-length utilities: cyclic tour length, the
//! farthest-point query, the greedy nearest-neighbor router and the exact
//! branch-and-bound router.

use vstd::multiset::Multiset;
use vstd::prelude::*;

use crate::geo::{
    all_in_metric_range, dist, euclidean_distance, in_metric_range, Point, DIST_BOUND,
    MAX_ROUTE_POINTS,
};

verus! {

/// Sum of the distances between the first `i` consecutive pairs of `s`:
/// `dist(s[0], s[1]) + ... + dist(s[i - 1], s[i])`.
pub open spec fn path_length_to(s: Seq<Point>, i: int) -> int
    decreases i,
{
    if i <= 0 {
        0
    } else {
        path_length_to(s, i - 1) + dist(s[i - 1], s[i])
    }
}

/// Length of the closed tour through `s`: consecutive distances plus the
/// wrap-around edge from the last point back to the first.
pub open spec fn cyclic_length(s: Seq<Point>) -> int {
    if s.len() == 0 {
        0
    } else {
        path_length_to(s.push(s[0]), s.len() as int)
    }
}

/// Length of the cyclic path through the points: the sum of the Euclidean
/// distances between each consecutive pair, including the wrap-around edge
/// from the last point back to the first.
pub fn calculate_distance(points: Vec<Point>) -> (r: u64)
    requires
        all_in_metric_range(points@),
        points@.len() <= MAX_ROUTE_POINTS,
    ensures
        r == cyclic_length(points@),
{
    let n = points.len();
    if n == 0 {
        return 0;
    }
    let ghost closed = points@.push(points@[0]);
    let mut total: u64 = 0;
    let mut i: usize = 0;
    while i < n
        invariant
            0 <= i <= n,
            n == points@.len(),
            1 <= n <= MAX_ROUTE_POINTS,
            all_in_metric_range(points@),
            closed == points@.push(points@[0]),
            total == path_length_to(closed, i as int),
            total <= i * 67108863,
        decreases n - i,
    {
        let d = if i + 1 < n {
            euclidean_distance(&points[i], &points[i + 1])
        } else {
            euclidean_distance(&points[i], &points[0])
        };
        proof {
            assert(closed[i as int] == points@[i as int]);
            assert(d == dist(closed[i as int], closed[i as int + 1]));
        }
        total = total + d;
        i = i + 1;
    }
    total
}

/// Continues the scan for the first point of `s` at minimum distance from
/// `from`, having already scanned the prefix up to `i` with `best` as the
/// first minimizer so far.
pub open spec fn nearest_from(s: Seq<Point>, from: Point, i: int, best: int) -> int
    decreases s.len() - i,
{
    if i < 0 || i >= s.len() {
        best
    } else if dist(from, s[i]) < dist(from, s[best]) {
        nearest_from(s, from, i + 1, i)
    } else {
        nearest_from(s, from, i + 1, best)
    }
}

/// Index of the first point of `s` at minimum distance from `from`;
/// ties go to the earliest index.
pub open spec fn nearest_index(s: Seq<Point>, from: Point) -> int {
    nearest_from(s, from, 1, 0)
}

/// The scan stays inside the index range of `s`.
pub proof fn lemma_nearest_from_in_range(s: Seq<Point>, from: Point, i: int, best: int)
    requires
        0 <= best < s.len(),
    ensures
        0 <= nearest_from(s, from, i, best) < s.len(),
    decreases s.len() - i,
{
    if 0 <= i < s.len() {
        if dist(from, s[i]) < dist(from, s[best]) {
            lemma_nearest_from_in_range(s, from, i + 1, i);
        } else {
            lemma_nearest_from_in_range(s, from, i + 1, best);
        }
    }
}

/// The nearest index of a non-empty sequence is a valid index.
pub proof fn lemma_nearest_index_in_range(s: Seq<Point>, from: Point)
    requires
        s.len() > 0,
    ensures
        0 <= nearest_index(s, from) < s.len(),
{
    lemma_nearest_from_in_range(s, from, 1, 0);
}

/// The order in which the greedy router visits the points of `s` starting
/// from `from`: repeatedly the first remaining point at minimum distance
/// from the point visited last.
pub open spec fn greedy_route(s: Seq<Point>, from: Point) -> Seq<Point>
    decreases s.len(),
    via greedy_route_decreases
{
    if s.len() == 0 {
        Seq::empty()
    } else {
        let k = nearest_index(s, from);
        seq![s[k]] + greedy_route(s.remove(k), s[k])
    }
}

#[via_fn]
proof fn greedy_route_decreases(s: Seq<Point>, from: Point) {
    if s.len() > 0 {
        lemma_nearest_index_in_range(s, from);
    }
}

/// The greedy route visits exactly one point per input point.
pub proof fn lemma_greedy_route_len(s: Seq<Point>, from: Point)
    ensures
        greedy_route(s, from).len() == s.len(),
    decreases s.len(),
{
    if s.len() > 0 {
        let k = nearest_index(s, from);
        lemma_nearest_index_in_range(s, from);
        lemma_greedy_route_len(s.remove(k), s[k]);
    }
}

/// The greedy route is a permutation of the input points: it visits every
/// point exactly as often as it occurs in the input.
pub proof fn lemma_greedy_route_multiset(s: Seq<Point>, from: Point)
    ensures
        greedy_route(s, from).to_multiset() == s.to_multiset(),
    decreases s.len(),
{
    broadcast use vstd::seq_lib::group_to_multiset_ensures;

    if s.len() > 0 {
        let k = nearest_index(s, from);
        lemma_nearest_index_in_range(s, from);
        lemma_greedy_route_multiset(s.remove(k), s[k]);
        vstd::seq_lib::lemma_multiset_commutative(seq![s[k]], greedy_route(s.remove(k), s[k]));
        assert(seq![s[k]].to_multiset() =~= Multiset::empty().insert(s[k]));
        assert(s.remove(k).to_multiset() =~= s.to_multiset().remove(s[k]));
        assert(s.to_multiset().contains(s[k]));
        assert(greedy_route(s, from).to_multiset() =~= s.to_multiset());
    }
}

/// Greedy nearest-neighbor tour: starting at `start_point`, repeatedly visit
/// the first remaining point at minimum distance from the current position;
/// the tour is closed by returning to the start.  Fails on an empty point
/// set.
pub fn nearest_neighbor(points: Vec<Point>, start_point: Point) -> (r: Result<Vec<Point>, String>)
    requires
        all_in_metric_range(points@),
        in_metric_range(start_point),
    ensures
        r is Err <==> points@.len() == 0,
        r matches Err(m) ==> m@ == "The input points must not be empty."@,
        r matches Ok(route) ==> route@ == seq![start_point] + greedy_route(points@, start_point)
            + seq![start_point],
        r matches Ok(route) ==> route@.len() == points@.len() + 2,
{
    let ghost orig = points@;
    if points.is_empty() {
        proof {
            reveal_strlit("The input points must not be empty.");
        }
        return Err("The input points must not be empty.".to_string());
    }
    let mut remaining = points;
    let mut result: Vec<Point> = Vec::new();
    result.push(start_point);
    let mut current = start_point;
    while remaining.len() > 0
        invariant
            all_in_metric_range(remaining@),
            in_metric_range(current),
            result@.len() == 1 + orig.len() - remaining@.len(),
            result@ + greedy_route(remaining@, current) == seq![start_point] + greedy_route(
                orig,
                start_point,
            ),
        decreases remaining@.len(),
    {
        let ghost pre = remaining@;
        let mut best: usize = 0;
        let mut best_d = euclidean_distance(&current, &remaining[0]);
        let mut j: usize = 1;
        while j < remaining.len()
            invariant
                0 <= best < j <= remaining@.len(),
                remaining@.len() > 0,
                all_in_metric_range(remaining@),
                in_metric_range(current),
                best_d == dist(current, remaining@[best as int]),
                nearest_from(remaining@, current, j as int, best as int) == nearest_index(
                    remaining@,
                    current,
                ),
            decreases remaining@.len() - j,
        {
            let d = euclidean_distance(&current, &remaining[j]);
            if d < best_d {
                best = j;
                best_d = d;
            }
            j = j + 1;
        }
        proof {
            assert(nearest_index(pre, current) == best as int);
        }
        let nearest_point = remaining[best];
        remaining.remove(best);
        result.push(nearest_point);
        proof {
            assert(greedy_route(pre, current) == seq![nearest_point] + greedy_route(
                remaining@,
                nearest_point,
            ));
            assert(result@ + greedy_route(remaining@, nearest_point) =~= seq![start_point]
                + greedy_route(orig, start_point));
        }
        current = nearest_point;
    }
    result.push(start_point);
    proof {
        lemma_greedy_route_len(orig, start_point);
        assert(greedy_route(remaining@, current) =~= Seq::<Point>::empty());
        assert(result@ =~= seq![start_point] + greedy_route(orig, start_point)
            + seq![start_point]);
    }
    Ok(result)
}

/// The pair `(pair.0, pair.1)` is drawn from the two lists at indices
/// `(i0, j0)`, no pair of the lists is closer, and every pair scanned
/// earlier (rows first, then columns) is strictly farther: the minimum is
/// the first one encountered, so ties resolve deterministically.
pub open spec fn is_first_minimal_pair(
    p1: Seq<Point>,
    p2: Seq<Point>,
    pair: (Point, Point),
) -> bool {
    exists|i0: int, j0: int|
        {
            &&& 0 <= i0 < p1.len()
            &&& 0 <= j0 < p2.len()
            &&& pair.0 == #[trigger] p1[i0]
            &&& pair.1 == #[trigger] p2[j0]
            &&& (forall|i: int, j: int|
                0 <= i < p1.len() && 0 <= j < p2.len() && (i < i0 || (i == i0 && j < j0))
                    ==> dist(#[trigger] p1[i], #[trigger] p2[j]) > dist(pair.0, pair.1))
        }
}

/// A closest pair between two point sets: `None` when either set is empty,
/// otherwise a pair, one point from each set, at minimum distance over all
/// such pairs; among equally close pairs the first one encountered wins.
pub fn find_minimal_pair(points1: &Vec<Point>, points2: &Vec<Point>) -> (r: Option<(Point, Point)>)
    requires
        all_in_metric_range(points1@),
        all_in_metric_range(points2@),
    ensures
        r is None <==> (points1@.len() == 0 || points2@.len() == 0),
        r matches Some(pair) ==> exists|i: int, j: int|
            0 <= i < points1@.len() && 0 <= j < points2@.len() && pair.0 == points1@[i]
                && pair.1 == points2@[j],
        r matches Some(pair) ==> forall|i: int, j: int|
            0 <= i < points1@.len() && 0 <= j < points2@.len() ==> dist(pair.0, pair.1) <= dist(
                #[trigger] points1@[i],
                #[trigger] points2@[j],
            ),
        r matches Some(pair) ==> is_first_minimal_pair(points1@, points2@, pair),
{
    if points1.is_empty() || points2.is_empty() {
        return None;
    }
    let mut min_pair = (points1[0], points2[0]);
    let mut min_distance = euclidean_distance(&points1[0], &points2[0]);
    let ghost mut bi: int = 0;
    let ghost mut bj: int = 0;
    let mut i: usize = 0;
    while i < points1.len()
        invariant
            0 <= i <= points1@.len(),
            points1@.len() > 0,
            points2@.len() > 0,
            all_in_metric_range(points1@),
            all_in_metric_range(points2@),
            min_distance == dist(min_pair.0, min_pair.1),
            0 <= bi < points1@.len(),
            0 <= bj < points2@.len(),
            min_pair.0 == points1@[bi],
            min_pair.1 == points2@[bj],
            forall|a: int, b: int|
                0 <= a < i && 0 <= b < points2@.len() ==> min_distance <= dist(
                    #[trigger] points1@[a],
                    #[trigger] points2@[b],
                ),
            forall|a: int, b: int|
                0 <= a < points1@.len() && 0 <= b < points2@.len() && (a < bi || (a == bi && b
                    < bj)) ==> dist(#[trigger] points1@[a], #[trigger] points2@[b])
                    > min_distance,
        decreases points1@.len() - i,
    {
        let mut j: usize = 0;
        while j < points2.len()
            invariant
                0 <= i < points1@.len(),
                0 <= j <= points2@.len(),
                points2@.len() > 0,
                all_in_metric_range(points1@),
                all_in_metric_range(points2@),
                min_distance == dist(min_pair.0, min_pair.1),
                0 <= bi < points1@.len(),
                0 <= bj < points2@.len(),
                min_pair.0 == points1@[bi],
                min_pair.1 == points2@[bj],
                forall|a: int, b: int|
                    0 <= a < i && 0 <= b < points2@.len() ==> min_distance <= dist(
                        #[trigger] points1@[a],
                        #[trigger] points2@[b],
                    ),
                forall|b: int| 0 <= b < j ==> min_distance <= dist(
                    points1@[i as int],
                    #[trigger] points2@[b],
                ),
                forall|a: int, b: int|
                    0 <= a < points1@.len() && 0 <= b < points2@.len() && (a < bi || (a == bi
                        && b < bj)) ==> dist(#[trigger] points1@[a], #[trigger] points2@[b])
                        > min_distance,
        decreases points2@.len() - j,
        {
            let d = euclidean_distance(&points1[i], &points2[j]);
            if d < min_distance {
                min_distance = d;
                min_pair = (points1[i], points2[j]);
                proof {
                    bi = i as int;
                    bj = j as int;
                }
            }
            j = j + 1;
        }
        i = i + 1;
    }
    proof {
        assert(is_first_minimal_pair(points1@, points2@, min_pair));
    }
    Some(min_pair)
}

/// Length of the chain that starts at `p` and then visits the points of `t`
/// in order: `dist(p, t[0]) + dist(t[0], t[1]) + ...`.
pub open spec fn chain_len_from(p: Point, t: Seq<Point>) -> int
    decreases t.len(),
{
    if t.len() == 0 {
        0
    } else {
        dist(p, t[0]) + chain_len_from(t[0], t.drop_first())
    }
}

/// Length of a tour sequence: the sum of the distances between consecutive
/// points.  A tour produced by the routers carries its start point at both
/// ends, so this includes the closing edge.
pub open spec fn tour_length(t: Seq<Point>) -> int {
    if t.len() == 0 {
        0
    } else {
        chain_len_from(t[0], t.drop_first())
    }
}

/// Minimum, over every order in which the points of `s` can be visited, of
/// the length of the chain from `last` through all of `s` and back to
/// `start`.
pub open spec fn best_tail_len(s: Seq<Point>, last: Point, start: Point) -> int
    decreases s.len(), s.len() + 1int,
{
    if s.len() == 0 {
        dist(last, start) as int
    } else {
        best_tail_from(
            s,
            last,
            start,
            1,
            dist(last, s[0]) + best_tail_len(s.remove(0), s[0], start),
        )
    }
}

/// Folds the minimum of `acc` and the chain lengths obtained by visiting
/// `s[k]`, `s[k + 1]`, ... next.
pub open spec fn best_tail_from(s: Seq<Point>, last: Point, start: Point, k: int, acc: int) -> int
    decreases s.len(), s.len() - k,
{
    if k < 0 || k >= s.len() {
        acc
    } else {
        let cand = dist(last, s[k]) + best_tail_len(s.remove(k), s[k], start);
        best_tail_from(s, last, start, k + 1, if cand < acc { cand } else { acc })
    }
}

/// The multiset of the empty sequence is the empty multiset.
proof fn lemma_empty_seq_multiset()
    ensures
        Seq::<Point>::empty().to_multiset() == Multiset::<Point>::empty(),
{
    broadcast use vstd::seq_lib::group_to_multiset_ensures;
    broadcast use vstd::multiset::group_multiset_axioms;

    assert forall|x: Point| #[trigger] Seq::<Point>::empty().to_multiset().count(x) == 0 by {
        assert(!Seq::<Point>::empty().contains(x));
    }
    assert(Seq::<Point>::empty().to_multiset() =~= Multiset::<Point>::empty());
}

/// Prepending the removed element restores the multiset of the original
/// sequence.
proof fn lemma_multiset_reinsert(s: Seq<Point>, k: int, sub: Seq<Point>, p: Point)
    requires
        0 <= k < s.len(),
        p == s[k],
        sub.to_multiset() == s.remove(k).to_multiset(),
    ensures
        sub.insert(0, p).to_multiset() == s.to_multiset(),
{
    broadcast use vstd::seq_lib::group_to_multiset_ensures;
    broadcast use vstd::multiset::group_multiset_axioms;

    vstd::seq_lib::to_multiset_insert(sub, 0, p);
    assert(s.remove(k).to_multiset() =~= s.to_multiset().remove(p));
    assert(s.contains(p));
    assert(s.to_multiset().count(p) > 0);
    assert(s.to_multiset().remove(p).insert(p) =~= s.to_multiset());
}

proof fn lemma_scan_le_acc(s: Seq<Point>, last: Point, start: Point, k: int, acc: int)
    ensures
        best_tail_from(s, last, start, k, acc) <= acc,
    decreases s.len() - k,
{
    if 0 <= k < s.len() {
        let cand = dist(last, s[k]) + best_tail_len(s.remove(k), s[k], start);
        lemma_scan_le_acc(s, last, start, k + 1, if cand < acc { cand } else { acc });
    }
}

proof fn lemma_scan_le_candidate(s: Seq<Point>, last: Point, start: Point, k: int, acc: int, j: int)
    requires
        0 <= k <= j < s.len(),
    ensures
        best_tail_from(s, last, start, k, acc) <= dist(last, s[j]) + best_tail_len(
            s.remove(j),
            s[j],
            start,
        ),
    decreases j - k,
{
    let cand = dist(last, s[k]) + best_tail_len(s.remove(k), s[k], start);
    let next = if cand < acc { cand } else { acc };
    if j == k {
        lemma_scan_le_acc(s, last, start, k + 1, next);
    } else {
        lemma_scan_le_candidate(s, last, start, k + 1, next, j);
    }
}

/// The minimum is at most the chain through any chosen next point.
pub proof fn lemma_best_tail_le_candidate(s: Seq<Point>, last: Point, start: Point, k: int)
    requires
        0 <= k < s.len(),
    ensures
        best_tail_len(s, last, start) <= dist(last, s[k]) + best_tail_len(
            s.remove(k),
            s[k],
            start,
        ),
{
    let acc0 = dist(last, s[0]) + best_tail_len(s.remove(0), s[0], start);
    if k == 0 {
        lemma_scan_le_acc(s, last, start, 1, acc0);
    } else {
        lemma_scan_le_candidate(s, last, start, 1, acc0, k);
    }
}

/// Exhaustive-search optimality: no order of visiting the points of `s`,
/// closing at `start`, yields a chain from `last` shorter than
/// [`best_tail_len`].  The order is given as the sequence `t` of visited
/// points with the closing `start` appended.
pub proof fn lemma_best_tail_is_min(s: Seq<Point>, last: Point, start: Point, t: Seq<Point>)
    requires
        t.len() == s.len() + 1,
        t[t.len() - 1] == start,
        t.drop_last().to_multiset() == s.to_multiset(),
    ensures
        chain_len_from(last, t) >= best_tail_len(s, last, start),
    decreases s.len(),
{
    broadcast use vstd::seq_lib::group_to_multiset_ensures;

    if s.len() == 0 {
        assert(t =~= seq![start]);
        assert(t.drop_first() =~= Seq::<Point>::empty());
        assert(chain_len_from(t[0], t.drop_first()) == 0);
    } else {
        let h = t[0];
        assert(t.drop_last()[0] == h);
        assert(t.drop_last().contains(h));
        assert(t.drop_last().to_multiset().count(h) > 0);
        assert(s.to_multiset().count(h) > 0);
        assert(s.contains(h));
        let k = choose|k: int| 0 <= k < s.len() && s[k] == h;
        let s2 = s.remove(k);
        let t2 = t.drop_first();
        assert(t2.len() == s2.len() + 1);
        assert(t2[t2.len() - 1] == start);
        assert(t2.drop_last() =~= t.drop_last().remove(0));
        assert(t.drop_last().remove(0).to_multiset() =~= t.drop_last().to_multiset().remove(h));
        assert(s2.to_multiset() =~= s.to_multiset().remove(h));
        assert(t2.drop_last().to_multiset() == s2.to_multiset());
        lemma_best_tail_is_min(s2, h, start, t2);
        lemma_best_tail_le_candidate(s, last, start, k);
        assert(chain_len_from(last, t) == dist(last, h) + chain_len_from(h, t2));
    }
}

/// Recursive exhaustive search: returns the order of `remaining` (with the
/// closing `start` appended) that minimizes the chain length from `last`,
/// together with that length.
fn best_tour_from(remaining: Vec<Point>, last: Point, start: Point) -> (res: (Vec<Point>, u64))
    requires
        all_in_metric_range(remaining@),
        in_metric_range(last),
        in_metric_range(start),
        remaining@.len() <= MAX_ROUTE_POINTS,
    ensures
        res.1 == best_tail_len(remaining@, last, start),
        res.1 <= (remaining@.len() + 1) * 67108863,
        res.0@.len() == remaining@.len() + 1,
        res.0@[res.0@.len() - 1] == start,
        res.0@.drop_last().to_multiset() == remaining@.to_multiset(),
        chain_len_from(last, res.0@) == res.1,
        all_in_metric_range(res.0@),
    decreases remaining@.len(),
{
    broadcast use vstd::seq_lib::group_to_multiset_ensures;

    if remaining.is_empty() {
        let mut path: Vec<Point> = Vec::new();
        path.push(start);
        let d = euclidean_distance(&last, &start);
        proof {
            lemma_empty_seq_multiset();
            assert(path@.drop_last() =~= Seq::<Point>::empty());
            assert(remaining@ =~= Seq::<Point>::empty());
            assert(path@.drop_first() =~= Seq::<Point>::empty());
            assert(chain_len_from(path@[0], path@.drop_first()) == 0);
        }
        return (path, d);
    }
    let ghost s = remaining@;
    let n = remaining.len();

    let first = remaining[0];
    let mut rest = remaining.clone();
    rest.remove(0);
    assert(rest@ =~= s.remove(0));
    let (tail, tail_len) = best_tour_from(rest, first, start);
    let d0 = euclidean_distance(&last, &first);
    let mut best_len = d0 + tail_len;
    let ghost tl = tail@;
    let mut best_path = tail;
    best_path.insert(0, first);
    proof {
        assert(best_path@ == tl.insert(0, first));
        assert(best_path@.drop_first() =~= tl);
        assert(best_path@.drop_last() =~= tl.drop_last().insert(0, first));
        lemma_multiset_reinsert(s, 0, tl.drop_last(), first);
        assert(chain_len_from(last, best_path@) == dist(last, first) + chain_len_from(
            first,
            tl,
        ));
    }
    let mut k: usize = 1;
    while k < n
        invariant
            1 <= k <= n,
            n == s.len(),
            remaining@ == s,
            all_in_metric_range(s),
            in_metric_range(last),
            in_metric_range(start),
            s.len() <= MAX_ROUTE_POINTS,
            best_tail_from(s, last, start, k as int, best_len as int) == best_tail_len(
                s,
                last,
                start,
            ),
            best_len <= s.len() * 67108863 + 67108863,
            best_path@.len() == s.len() + 1,
            best_path@[best_path@.len() - 1] == start,
            best_path@.drop_last().to_multiset() == s.to_multiset(),
            chain_len_from(last, best_path@) == best_len,
            all_in_metric_range(best_path@),
        decreases n - k,
    {
        let pk = remaining[k];
        let mut restk = remaining.clone();
        restk.remove(k);
        assert(restk@ =~= s.remove(k as int));
        let (tailk, tailk_len) = best_tour_from(restk, pk, start);
        let dk = euclidean_distance(&last, &pk);
        let cand = dk + tailk_len;
        if cand < best_len {
            best_len = cand;
            let ghost tlk = tailk@;
            best_path = tailk;
            best_path.insert(0, pk);
            proof {
                assert(best_path@ == tlk.insert(0, pk));
                assert(best_path@.drop_first() =~= tlk);
                assert(best_path@.drop_last() =~= tlk.drop_last().insert(0, pk));
                lemma_multiset_reinsert(s, k as int, tlk.drop_last(), pk);
                assert(chain_len_from(last, best_path@) == dist(last, pk) + chain_len_from(
                    pk,
                    tlk,
                ));
            }
        }
        k = k + 1;
    }
    (best_path, best_len)
}

/// Exact traveling-salesman search: returns a minimum-length closed tour
/// that starts and ends at `start_point` and visits every input point
/// exactly once.  An empty input yields an empty route.  The search is
/// exhaustive (with factorial cost), so it is intended for small inputs.
pub fn brute_force(points: Vec<Point>, start_point: Point) -> (r: Vec<Point>)
    requires
        all_in_metric_range(points@),
        in_metric_range(start_point),
        points@.len() <= MAX_ROUTE_POINTS,
    ensures
        points@.len() == 0 ==> r@ == Seq::<Point>::empty(),
        points@.len() > 0 ==> r@.len() == points@.len() + 2,
        points@.len() > 0 ==> r@[0] == start_point && r@[r@.len() - 1] == start_point,
        points@.len() > 0 ==> r@.subrange(1, r@.len() - 1).to_multiset() == points@.to_multiset(),
        points@.len() > 0 ==> tour_length(r@) == best_tail_len(points@, start_point, start_point),
{
    if points.is_empty() {
        return Vec::new();
    }
    let ghost s = points@;
    let (mut tail, best) = best_tour_from(points, start_point, start_point);
    let ghost tl = tail@;
    let mut route: Vec<Point> = Vec::new();
    route.push(start_point);
    route.append(&mut tail);
    proof {
        assert(route@ =~= seq![start_point] + tl);
        assert(route@.drop_first() =~= tl);
        assert(route@.subrange(1, route@.len() - 1) =~= tl.drop_last());
        assert(tour_length(route@) == chain_len_from(start_point, tl));
    }
    route
}

/// Largest distance from `start_point` to any of the given points; fails on
/// an empty point set.
pub fn search_long_distance(points: Vec<Point>, start_point: Point) -> (r: Result<u64, String>)
    requires
        all_in_metric_range(points@),
        in_metric_range(start_point),
    ensures
        r is Err <==> points@.len() == 0,
        r matches Err(m) ==> m@ == "No points provided"@,
        r matches Ok(d) ==> exists|i: int|
            0 <= i < points@.len() && d == dist(start_point, points@[i]),
        r matches Ok(d) ==> forall|i: int|
            0 <= i < points@.len() ==> dist(start_point, #[trigger] points@[i]) <= d,
{
    if points.is_empty() {
        proof {
            reveal_strlit("No points provided");
        }
        return Err("No points provided".to_string());
    }
    let mut max_distance = euclidean_distance(&start_point, &points[0]);
    let mut i: usize = 1;
    while i < points.len()
        invariant
            1 <= i <= points@.len(),
            all_in_metric_range(points@),
            in_metric_range(start_point),
            exists|k: int| 0 <= k < i && max_distance == dist(start_point, points@[k]),
            forall|k: int| 0 <= k < i ==> dist(start_point, #[trigger] points@[k]) <= max_distance,
        decreases points@.len() - i,
    {
        let d = euclidean_distance(&start_point, &points[i]);
        if d > max_distance {
            max_distance = d;
        }
        i = i + 1;
    }
    Ok(max_distance)
}

} // verus!
