//! Disjoint-set forest and Boruvka's minimum-spanning-tree construction
//! over the complete region-adjacency graph.

use vstd::prelude::*;
use vstd::set_lib::{lemma_int_range, lemma_len_subset, set_int_range};

use crate::regions::Direction;

verus! {

/// Follows parent links from `i` for at most `fuel` steps.
pub open spec fn find_root(p: Seq<usize>, i: int, fuel: nat) -> int
    decreases fuel,
{
    if fuel == 0 || !(0 <= i < p.len()) {
        i
    } else if p[i] == i {
        i
    } else {
        find_root(p, p[i] as int, (fuel - 1) as nat)
    }
}

/// Canonical representative of the set containing `i`: the root reached
/// from `i`.  `p.len()` steps always suffice in a well-formed forest.
pub open spec fn root_of(p: Seq<usize>, i: int) -> int {
    find_root(p, i, p.len())
}

/// `a` and `b` belong to the same set of the partition.
pub open spec fn same_set(p: Seq<usize>, a: int, b: int) -> bool {
    root_of(p, a) == root_of(p, b)
}

/// The parent array is a forest: links stay in range and some rank
/// labelling strictly increases along every link, so chains terminate.
pub open spec fn parent_ranked(p: Seq<usize>, r: Seq<int>) -> bool {
    &&& r.len() == p.len()
    &&& forall|i: int| 0 <= i < p.len() ==> 0 <= #[trigger] p[i] < p.len()
    &&& forall|i: int| 0 <= i < p.len() && p[i] != i ==> r[p[i] as int] > #[trigger] r[i]
}

/// The parent array is a well-formed forest.
pub open spec fn parent_wf(p: Seq<usize>) -> bool {
    exists|r: Seq<int>| parent_ranked(p, r)
}

/// The nodes whose rank is at least `v`.
spec fn above_set(r: Seq<int>, v: int) -> Set<int> {
    Set::new(|k: int| 0 <= k < r.len() && r[k] >= v)
}

/// The set of nodes ranked at least `r[i]` is finite, non-empty, and no
/// larger than the forest.
proof fn lemma_above(r: Seq<int>, i: int)
    requires
        0 <= i < r.len(),
    ensures
        above_set(r, r[i]).finite(),
        1 <= above_set(r, r[i]).len() <= r.len(),
{
    lemma_int_range(0, r.len() as int);
    lemma_len_subset(above_set(r, r[i]), set_int_range(0, r.len() as int));
    assert(above_set(r, r[i]).contains(i));
    lemma_len_subset(Set::empty().insert(i), above_set(r, r[i]));
}

/// Walking to a strictly higher rank strictly shrinks the set of nodes at
/// or above that rank.
proof fn lemma_step_card(r: Seq<int>, a: int, b: int)
    requires
        0 <= a < r.len(),
        0 <= b < r.len(),
        r[b] > r[a],
    ensures
        above_set(r, r[b]).finite(),
        above_set(r, r[b]).len() < above_set(r, r[a]).len(),
{
    lemma_above(r, a);
    lemma_above(r, b);
    let sa = above_set(r, r[a]);
    let sb = above_set(r, r[b]);
    assert(sb.subset_of(sa.remove(a)));
    assert(sa.contains(a));
    assert(sa.remove(a).len() == sa.len() - 1);
    lemma_len_subset(sb, sa.remove(a));
}

/// In a ranked forest, any fuel of at least the number of nodes ranked at
/// or above `i` reaches the root, and the result agrees with `root_of`.
proof fn lemma_find_root_reaches(p: Seq<usize>, r: Seq<int>, i: int, fuel: nat)
    requires
        parent_ranked(p, r),
        0 <= i < p.len(),
        fuel >= above_set(r, r[i]).len(),
    ensures
        find_root(p, i, fuel) == root_of(p, i),
        0 <= root_of(p, i) < p.len(),
        p[root_of(p, i)] == root_of(p, i),
        r[root_of(p, i)] >= r[i],
    decreases above_set(r, r[i]).len(),
{
    lemma_above(r, i);
    if p[i] == i {
    } else {
        let next = p[i] as int;
        lemma_step_card(r, i, next);
        lemma_find_root_reaches(p, r, next, (fuel - 1) as nat);
        lemma_find_root_reaches(p, r, next, (p.len() - 1) as nat);
        assert(find_root(p, i, p.len()) == find_root(p, next, (p.len() - 1) as nat));
    }
}

/// `root_of` returns a root, in range, for every node of a well-formed
/// forest.
pub proof fn lemma_root_of(p: Seq<usize>, i: int)
    requires
        parent_wf(p),
        0 <= i < p.len(),
    ensures
        0 <= root_of(p, i) < p.len(),
        p[root_of(p, i)] == root_of(p, i),
{
    let r = choose|r: Seq<int>| parent_ranked(p, r);
    lemma_above(r, i);
    lemma_find_root_reaches(p, r, i, p.len());
}

/// The root of a root is itself.
pub proof fn lemma_root_idempotent(p: Seq<usize>, i: int)
    requires
        0 <= i < p.len(),
        p[i] == i,
    ensures
        root_of(p, i) == i,
{
}

/// One step along a chain preserves the root.
proof fn lemma_root_step(p: Seq<usize>, r: Seq<int>, i: int)
    requires
        parent_ranked(p, r),
        0 <= i < p.len(),
        p[i] != i,
    ensures
        root_of(p, i) == root_of(p, p[i] as int),
{
    lemma_step_card(r, i, p[i] as int);
    lemma_above(r, i);
    lemma_find_root_reaches(p, r, p[i] as int, (p.len() - 1) as nat);
    assert(root_of(p, i) == find_root(p, p[i] as int, (p.len() - 1) as nat));
}

/// The rank of the root strictly dominates the rank of a non-root node.
proof fn lemma_root_rank(p: Seq<usize>, r: Seq<int>, i: int)
    requires
        parent_ranked(p, r),
        0 <= i < p.len(),
        p[i] != i,
    ensures
        root_of(p, i) != i,
        r[root_of(p, i)] > r[i],
        0 <= root_of(p, i) < p.len(),
        p[root_of(p, i)] == root_of(p, i),
        root_of(p, root_of(p, i)) == root_of(p, i),
{
    lemma_above(r, i);
    lemma_find_root_reaches(p, r, i, p.len());
    lemma_root_step(p, r, i);
    lemma_step_card(r, i, p[i] as int);
    lemma_find_root_reaches(p, r, p[i] as int, p.len());
    lemma_root_idempotent(p, root_of(p, i));
}

/// Redirecting a non-root node straight to its root keeps the forest
/// well-formed and preserves every node's root.
#[verifier::rlimit(50)]
proof fn lemma_compress(p: Seq<usize>, r: Seq<int>, i: int)
    requires
        parent_ranked(p, r),
        0 <= i < p.len(),
        p[i] != i,
    ensures
        parent_ranked(p.update(i, root_of(p, i) as usize), r),
        forall|a: int| 0 <= a < p.len() ==> root_of(
            p.update(i, root_of(p, i) as usize),
            a,
        ) == root_of(p, a),
        forall|a: int| 0 <= a < p.len() ==> ((p.update(i, root_of(p, i) as usize)[a] == a) <==> (
        p[a] == a)),
{
    let rt = root_of(p, i);
    let p2 = p.update(i, rt as usize);
    lemma_root_rank(p, r, i);
    assert(parent_ranked(p2, r));
    assert forall|a: int| 0 <= a < p.len() implies root_of(p2, a) == root_of(p, a) by {
        lemma_above(r, a);
        lemma_redirect_step(p, p2, r, a, p2.len());
    }
}

/// With enough fuel, roots in the redirected forest agree with roots in
/// the original forest: every changed link jumps to a node with the same
/// original root.
proof fn lemma_redirect_step(p: Seq<usize>, p2: Seq<usize>, r: Seq<int>, a: int, fuel: nat)
    requires
        parent_ranked(p, r),
        parent_ranked(p2, r),
        p2.len() == p.len(),
        0 <= a < p.len(),
        fuel >= above_set(r, r[a]).len(),
        forall|k: int| 0 <= k < p.len() ==> p2[k] == p[k] || root_of(p, #[trigger] p2[k] as int)
            == root_of(p, k),
        forall|k: int| 0 <= k < p.len() ==> ((p2[k] == k) <==> (#[trigger] p[k] == k)),
    ensures
        find_root(p2, a, fuel) == root_of(p, a),
    decreases fuel,
{
    lemma_above(r, a);
    if p2[a] == a {
        assert(p[a] == a);
    } else {
        let next = p2[a] as int;
        lemma_step_card(r, a, next);
        lemma_redirect_step(p, p2, r, next, (fuel - 1) as nat);
        if p2[a] == p[a] {
            lemma_root_step(p, r, a);
        } else {
            assert(root_of(p, next) == root_of(p, a));
        }
    }
}

/// Finds the representative of the set containing `i`, compressing the
/// path so later searches are shorter.  The partition itself is unchanged.
pub fn find(parent: &mut Vec<usize>, i: usize) -> (root: usize)
    requires
        parent_wf(old(parent)@),
        (i as int) < old(parent)@.len(),
    ensures
        final(parent)@.len() == old(parent)@.len(),
        parent_wf(final(parent)@),
        root as int == root_of(old(parent)@, i as int),
        (root as int) < final(parent)@.len(),
        final(parent)@[root as int] == root,
        forall|a: int| 0 <= a < final(parent)@.len() ==> root_of(final(parent)@, a) == root_of(
            old(parent)@,
            a,
        ),
        forall|a: int| 0 <= a < final(parent)@.len() ==> ((final(parent)@[a] == a) <==> (old(
            parent,
        )@[a] == a)),
{
    let ghost p0 = parent@;
    let ghost rk = choose|rk: Seq<int>| parent_ranked(parent@, rk);
    proof {
        lemma_root_of(p0, i as int);
        lemma_above(rk, i as int);
    }

    // Walk up to the root.
    let mut cur = i;
    let mut steps: usize = parent.len();
    while parent[cur] != cur
        invariant
            parent@ == p0,
            parent_ranked(p0, rk),
            (cur as int) < p0.len(),
            root_of(p0, cur as int) == root_of(p0, i as int),
            steps >= above_set(rk, rk[cur as int]).len(),
        decreases steps,
    {
        proof {
            lemma_above(rk, cur as int);
            lemma_root_step(p0, rk, cur as int);
            lemma_step_card(rk, cur as int, p0[cur as int] as int);
        }
        cur = parent[cur];
        steps = steps - 1;
    }
    let root = cur;
    proof {
        lemma_root_idempotent(p0, root as int);
    }

    // Compress the path from `i` to the root.  The walk follows the
    // original chain: only nodes already passed have been redirected.
    let mut node = i;
    let mut steps2: usize = parent.len();
    while node != root
        invariant
            parent@.len() == p0.len(),
            parent_ranked(p0, rk),
            parent_wf(parent@),
            (node as int) < p0.len(),
            (root as int) < p0.len(),
            parent@[root as int] == root,
            root_of(p0, node as int) == root as int,
            steps2 >= above_set(rk, rk[node as int]).len(),
            forall|a: int| 0 <= a < p0.len() && rk[a] >= rk[node as int] ==> parent@[a] == p0[a],
            forall|a: int| 0 <= a < p0.len() ==> root_of(parent@, a) == root_of(p0, a),
            forall|a: int| 0 <= a < p0.len() ==> ((parent@[a] == a) <==> (p0[a] == a)),
        decreases steps2,
    {
        let ghost pcur = parent@;
        let ghost rcur = choose|rc: Seq<int>| parent_ranked(pcur, rc);
        let next = parent[node];
        proof {
            assert(pcur[node as int] == p0[node as int]);
            if p0[node as int] == node {
                lemma_root_idempotent(p0, node as int);
                assert(false);
            }
            lemma_above(rk, node as int);
            lemma_root_step(p0, rk, node as int);
            lemma_step_card(rk, node as int, p0[node as int] as int);
            lemma_compress(pcur, rcur, node as int);
            assert(root_of(pcur, node as int) == root as int);
        }
        parent.set(node, root);
        node = next;
        steps2 = steps2 - 1;
    }
    root
}

/// Linking root `ra` beneath root `rb` merges exactly their two sets:
/// the new root of every node previously rooted at `ra` is `rb`, and no
/// other node's root changes.
proof fn lemma_link(p: Seq<usize>, r: Seq<int>, ra: int, rb: int)
    requires
        parent_ranked(p, r),
        0 <= ra < p.len(),
        0 <= rb < p.len(),
        p[ra] == ra,
        p[rb] == rb,
        ra != rb,
    ensures
        parent_ranked(
            p.update(ra, rb as usize),
            r.update(rb, if r[rb] >= r[ra] + 1 { r[rb] } else { r[ra] + 1 }),
        ),
        forall|a: int| 0 <= a < p.len() ==> root_of(p.update(ra, rb as usize), a) == (if root_of(
            p,
            a,
        ) == ra {
            rb
        } else {
            root_of(p, a)
        }),
        forall|a: int| 0 <= a < p.len() ==> ((p.update(ra, rb as usize)[a] == a) <==> (p[a] == a
            && a != ra)),
{
    let p2 = p.update(ra, rb as usize);
    let r2 = r.update(rb, if r[rb] >= r[ra] + 1 { r[rb] } else { r[ra] + 1 });
    assert(parent_ranked(p2, r2));
    assert forall|a: int| 0 <= a < p.len() implies root_of(p2, a) == (if root_of(p, a) == ra {
        rb
    } else {
        root_of(p, a)
    }) by {
        lemma_above(r, a);
        lemma_link_step(p, p2, r, r2, ra, rb, a, above_set(r, r[a]).len());
    }
}

/// Chains in the linked forest follow the old chains and then, from `ra`,
/// take one extra step to `rb`.
proof fn lemma_link_step(
    p: Seq<usize>,
    p2: Seq<usize>,
    r: Seq<int>,
    r2: Seq<int>,
    ra: int,
    rb: int,
    a: int,
    fuel: nat,
)
    requires
        parent_ranked(p, r),
        parent_ranked(p2, r2),
        p2.len() == p.len(),
        0 <= ra < p.len(),
        0 <= rb < p.len(),
        p[ra] == ra,
        p[rb] == rb,
        ra != rb,
        p2 == p.update(ra, rb as usize),
        0 <= a < p.len(),
        fuel >= above_set(r, r[a]).len(),
    ensures
        root_of(p2, a) == (if root_of(p, a) == ra {
            rb
        } else {
            root_of(p, a)
        }),
    decreases fuel,
{
    lemma_above(r, a);
    let rcur = choose|rc: Seq<int>| parent_ranked(p2, rc);
    if p[a] == a {
        if a == ra {
            // one step from ra to rb, which is a root of the new forest
            assert(p2[ra] == rb && p2[rb] == rb);
            lemma_root_step(p2, r2, ra);
            lemma_root_idempotent(p2, rb);
            lemma_root_idempotent(p, ra);
        } else {
            lemma_root_idempotent(p, a);
            lemma_root_idempotent(p2, a);
        }
    } else {
        let next = p[a] as int;
        assert(p2[a] == p[a]);
        lemma_step_card(r, a, next);
        lemma_link_step(p, p2, r, r2, ra, rb, next, (fuel - 1) as nat);
        lemma_root_step(p, r, a);
        lemma_root_step(p2, r2, a);
    }
}

/// Merges the set containing `x` with the set containing `y`, linking the
/// two roots by rank.  Exactly the two sets merge; every other set is
/// untouched, and if the two roots differed, exactly one of them stops
/// being a root.
pub fn union_set(parent: &mut Vec<usize>, rank: &mut Vec<usize>, x: usize, y: usize)
    requires
        parent_wf(old(parent)@),
        old(rank)@.len() == old(parent)@.len(),
        (x as int) < old(parent)@.len(),
        (y as int) < old(parent)@.len(),
        forall|k: int| 0 <= k < old(rank)@.len() ==> (#[trigger] old(rank)@[k]) < usize::MAX,
    ensures
        final(parent)@.len() == old(parent)@.len(),
        final(rank)@.len() == old(rank)@.len(),
        parent_wf(final(parent)@),
        forall|a: int, b: int|
            0 <= a < final(parent)@.len() && 0 <= b < final(parent)@.len() ==> (same_set(
                final(parent)@,
                a,
                b,
            ) <==> (same_set(old(parent)@, a, b) || (same_set(old(parent)@, a, x as int)
                && same_set(old(parent)@, b, y as int)) || (same_set(old(parent)@, a, y as int)
                && same_set(old(parent)@, b, x as int)))),
        forall|k: int| 0 <= k < final(rank)@.len() ==> (#[trigger] final(rank)@[k])
            == old(rank)@[k] || final(rank)@[k] == old(rank)@[k] + 1,
        same_set(old(parent)@, x as int, y as int) ==> forall|a: int|
            0 <= a < final(parent)@.len() ==> ((final(parent)@[a] == a) <==> (old(
                parent,
            )@[a] == a)),
        !same_set(old(parent)@, x as int, y as int) ==> ((forall|a: int|
            0 <= a < final(parent)@.len() ==> ((#[trigger] final(parent)@[a] == a) <==> (old(
                parent,
            )@[a] == a && a != root_of(old(parent)@, x as int)))) || (forall|a: int|
            0 <= a < final(parent)@.len() ==> ((#[trigger] final(parent)@[a] == a) <==> (old(
                parent,
            )@[a] == a && a != root_of(old(parent)@, y as int))))),
{
    let ghost p0 = parent@;
    let xroot = find(parent, x);
    let yroot = find(parent, y);
    let ghost p1 = parent@;
    let ghost rk1 = choose|rc: Seq<int>| parent_ranked(p1, rc);
    proof {
        lemma_root_of(p1, xroot as int);
        lemma_root_of(p1, yroot as int);
        assert(root_of(p1, xroot as int) == xroot as int);
        assert(root_of(p1, yroot as int) == yroot as int);
    }
    if xroot == yroot {
        return ;
    }
    proof {
        lemma_link(p1, rk1, xroot as int, yroot as int);
        lemma_link(p1, rk1, yroot as int, xroot as int);
        assert forall|a: int| 0 <= a < p1.len() implies 0 <= #[trigger] root_of(p1, a)
            < p1.len() by {
            lemma_root_of(p1, a);
        }
    }
    if rank[xroot] < rank[yroot] {
        parent.set(xroot, yroot);
        proof {
            lemma_union_sets(p0, p1, xroot as int, yroot as int, x as int, y as int);
        }
    } else if rank[xroot] > rank[yroot] {
        parent.set(yroot, xroot);
        proof {
            lemma_union_sets(p0, p1, yroot as int, xroot as int, x as int, y as int);
        }
    } else {
        parent.set(yroot, xroot);
        let bumped = rank[xroot] + 1;
        rank.set(xroot, bumped);
        proof {
            lemma_union_sets(p0, p1, yroot as int, xroot as int, x as int, y as int);
        }
    }
}

/// After linking the root of one of `x`, `y` beneath the root of the
/// other, the same-set relation is the old relation with the sets of `x`
/// and `y` merged.
proof fn lemma_union_sets(p0: Seq<usize>, p1: Seq<usize>, ra: int, rb: int, x: int, y: int)
    requires
        p1.len() == p0.len(),
        0 <= ra < p1.len(),
        0 <= rb < p1.len(),
        p1[ra] == ra,
        p1[rb] == rb,
        ra != rb,
        forall|a: int| 0 <= a < p1.len() ==> root_of(p1, a) == root_of(p0, a),
        forall|a: int| 0 <= a < p1.len() ==> ((p1[a] == a) <==> (p0[a] == a)),
        0 <= x < p1.len(),
        0 <= y < p1.len(),
        (root_of(p1, x) == ra && root_of(p1, y) == rb) || (root_of(p1, x) == rb && root_of(
            p1,
            y,
        ) == ra),
        forall|a: int| 0 <= a < p1.len() ==> root_of(p1.update(ra, rb as usize), a) == (if root_of(
            p1,
            a,
        ) == ra {
            rb
        } else {
            root_of(p1, a)
        }),
        forall|a: int| 0 <= a < p1.len() ==> ((p1.update(ra, rb as usize)[a] == a) <==> (p1[a]
            == a && a != ra)),
        forall|a: int| 0 <= a < p1.len() ==> 0 <= #[trigger] root_of(p1, a) < p1.len(),
    ensures
        forall|a: int, b: int|
            0 <= a < p1.len() && 0 <= b < p1.len() ==> (same_set(
                p1.update(ra, rb as usize),
                a,
                b,
            ) <==> (same_set(p0, a, b) || (same_set(p0, a, x) && same_set(p0, b, y)) || (same_set(
                p0,
                a,
                y,
            ) && same_set(p0, b, x)))),
        forall|a: int|
            0 <= a < p1.len() ==> ((p1.update(ra, rb as usize)[a] == a) <==> (p0[a] == a && a
                != ra)),
{
}

// ---------------------------------------------------------------------
// Undirected graphs over vertices `0 .. n`, as sets of vertex pairs.
// ---------------------------------------------------------------------

/// An undirected edge between `a` and `b` is present (either orientation).
pub open spec fn has_edge(es: Set<(int, int)>, a: int, b: int) -> bool {
    es.contains((a, b)) || es.contains((b, a))
}

/// `p` walks from `a` to `b` along edges of `es`, within vertices `0..n`.
pub open spec fn is_walk(es: Set<(int, int)>, n: int, p: Seq<int>, a: int, b: int) -> bool {
    &&& p.len() >= 1
    &&& p[0] == a
    &&& p[p.len() - 1] == b
    &&& forall|k: int| 0 <= k < p.len() ==> 0 <= #[trigger] p[k] < n
    &&& forall|k: int| 0 <= k < p.len() - 1 ==> has_edge(es, #[trigger] p[k], p[k + 1])
}

/// Some walk joins `a` to `b`.
pub open spec fn connected(es: Set<(int, int)>, n: int, a: int, b: int) -> bool {
    exists|p: Seq<int>| is_walk(es, n, p, a, b)
}

/// A cycle through at least three distinct vertices.
pub open spec fn is_simple_cycle(es: Set<(int, int)>, n: int, p: Seq<int>) -> bool {
    &&& p.len() >= 3
    &&& forall|k1: int, k2: int| 0 <= k1 < k2 < p.len() ==> p[k1] != p[k2]
    &&& forall|k: int| 0 <= k < p.len() ==> 0 <= #[trigger] p[k] < n
    &&& forall|k: int| 0 <= k < p.len() - 1 ==> has_edge(es, #[trigger] p[k], p[k + 1])
    &&& has_edge(es, p[p.len() - 1], p[0])
}

/// No simple cycle exists.
pub open spec fn acyclic(es: Set<(int, int)>, n: int) -> bool {
    forall|p: Seq<int>| !is_simple_cycle(es, n, p)
}

/// Every vertex reaches itself.
pub proof fn lemma_connected_refl(es: Set<(int, int)>, n: int, a: int)
    requires
        0 <= a < n,
    ensures
        connected(es, n, a, a),
{
    assert(is_walk(es, n, seq![a], a, a));
}

/// An edge connects its endpoints.
pub proof fn lemma_connected_edge(es: Set<(int, int)>, n: int, a: int, b: int)
    requires
        0 <= a < n,
        0 <= b < n,
        has_edge(es, a, b),
    ensures
        connected(es, n, a, b),
{
    let p = seq![a, b];
    assert(p[0] == a && p[p.len() - 1] == b);
    assert(is_walk(es, n, p, a, b));
}

/// Connectivity is symmetric.
pub proof fn lemma_connected_sym(es: Set<(int, int)>, n: int, a: int, b: int)
    requires
        connected(es, n, a, b),
    ensures
        connected(es, n, b, a),
{
    let p = choose|p: Seq<int>| is_walk(es, n, p, a, b);
    let q = Seq::new(p.len(), |k: int| p[p.len() - 1 - k]);
    assert forall|k: int| 0 <= k < q.len() - 1 implies has_edge(es, #[trigger] q[k], q[k + 1]) by {
        assert(q[k] == p[p.len() - 1 - k] && q[k + 1] == p[p.len() - 2 - k]);
        assert(has_edge(es, p[p.len() - 2 - k], p[p.len() - 1 - k]));
    }
    assert(is_walk(es, n, q, b, a));
}

/// Connectivity is transitive.
pub proof fn lemma_connected_trans(es: Set<(int, int)>, n: int, a: int, b: int, c: int)
    requires
        connected(es, n, a, b),
        connected(es, n, b, c),
    ensures
        connected(es, n, a, c),
{
    let p1 = choose|p: Seq<int>| is_walk(es, n, p, a, b);
    let p2 = choose|p: Seq<int>| is_walk(es, n, p, b, c);
    let q = p1 + p2.drop_first();
    assert(q.len() == p1.len() + p2.len() - 1);
    assert(q[0] == a);
    if p2.len() == 1 {
        assert(q =~= p1);
        assert(is_walk(es, n, q, a, c));
    } else {
        assert(q[q.len() - 1] == p2[p2.len() - 1]);
        assert forall|k: int| 0 <= k < q.len() - 1 implies has_edge(es, #[trigger] q[k], q[k + 1])
            by {
            if k < p1.len() - 1 {
                assert(q[k] == p1[k] && q[k + 1] == p1[k + 1]);
                assert(has_edge(es, p1[k], p1[k + 1]));
            } else if k == p1.len() - 1 {
                assert(q[k] == b && q[k + 1] == p2[1]);
                assert(has_edge(es, p2[0], p2[1]));
            } else {
                assert(q[k] == p2[k - p1.len() + 1] && q[k + 1] == p2[k - p1.len() + 2]);
                assert(has_edge(es, p2[k - p1.len() + 1], p2[k - p1.len() + 2]));
            }
        }
        assert(is_walk(es, n, q, a, c));
    }
}

/// Adding edges preserves connectivity.
pub proof fn lemma_connected_mono(es: Set<(int, int)>, es2: Set<(int, int)>, n: int, a: int, b: int)
    requires
        connected(es, n, a, b),
        es.subset_of(es2),
    ensures
        connected(es2, n, a, b),
{
    let p = choose|p: Seq<int>| is_walk(es, n, p, a, b);
    assert forall|k: int| 0 <= k < p.len() - 1 implies has_edge(es2, #[trigger] p[k], p[k + 1]) by {
        assert(has_edge(es, p[k], p[k + 1]));
    }
    assert(is_walk(es2, n, p, a, b));
}

/// A walk that may use one extra edge `(u, v)` decomposes: either it
/// avoids the new edge, or it splits at a use of the new edge.
proof fn lemma_walk_decompose(
    es: Set<(int, int)>,
    n: int,
    u: int,
    v: int,
    p: Seq<int>,
    a: int,
    b: int,
)
    requires
        is_walk(es.insert((u, v)), n, p, a, b),
    ensures
        connected(es, n, a, b) || (connected(es, n, a, u) && connected(es, n, v, b)) || (connected(
            es,
            n,
            a,
            v,
        ) && connected(es, n, u, b)),
    decreases p.len(),
{
    if p.len() == 1 {
        lemma_connected_refl(es, n, a);
    } else {
        let x = p[1];
        let rest = p.drop_first();
        assert(rest[0] == x && rest[rest.len() - 1] == b);
        assert forall|k: int| 0 <= k < rest.len() - 1 implies has_edge(
            es.insert((u, v)),
            #[trigger] rest[k],
            rest[k + 1],
        ) by {
            assert(rest[k] == p[k + 1] && rest[k + 1] == p[k + 2]);
            assert(has_edge(es.insert((u, v)), p[k + 1], p[k + 2]));
        }
        assert(is_walk(es.insert((u, v)), n, rest, x, b));
        lemma_walk_decompose(es, n, u, v, rest, x, b);
        assert(has_edge(es.insert((u, v)), p[0], p[1]));
        if has_edge(es, a, x) {
            lemma_connected_edge(es, n, a, x);
            if connected(es, n, x, b) {
                lemma_connected_trans(es, n, a, x, b);
            } else if connected(es, n, x, u) && connected(es, n, v, b) {
                lemma_connected_trans(es, n, a, x, u);
            } else {
                lemma_connected_trans(es, n, a, x, v);
            }
        } else {
            assert((a == u && x == v) || (a == v && x == u));
            lemma_connected_refl(es, n, a);
            if a == u && x == v {
                if connected(es, n, v, b) {
                } else if connected(es, n, v, u) && connected(es, n, v, b) {
                } else {
                    assert(connected(es, n, v, v) && connected(es, n, u, b));
                    lemma_connected_trans(es, n, a, u, b);
                }
            } else {
                if connected(es, n, u, b) {
                } else if connected(es, n, u, u) && connected(es, n, v, b) {
                    lemma_connected_trans(es, n, a, v, b);
                } else {
                    assert(connected(es, n, u, v) && connected(es, n, v, b)
                        || connected(es, n, u, b));
                    if connected(es, n, u, v) && connected(es, n, v, b) {
                        lemma_connected_trans(es, n, u, v, b);
                    }
                }
            }
        }
    }
}

/// Connectivity after inserting the edge `(u, v)`: the old relation with
/// the components of `u` and `v` merged.
pub proof fn lemma_connected_insert(
    es: Set<(int, int)>,
    n: int,
    u: int,
    v: int,
    a: int,
    b: int,
)
    requires
        0 <= u < n,
        0 <= v < n,
        0 <= a < n,
        0 <= b < n,
    ensures
        connected(es.insert((u, v)), n, a, b) <==> (connected(es, n, a, b) || (connected(
            es,
            n,
            a,
            u,
        ) && connected(es, n, v, b)) || (connected(es, n, a, v) && connected(es, n, u, b))),
{
    let es2 = es.insert((u, v));
    if connected(es2, n, a, b) {
        let p = choose|p: Seq<int>| is_walk(es2, n, p, a, b);
        lemma_walk_decompose(es, n, u, v, p, a, b);
    }
    if connected(es, n, a, b) {
        lemma_connected_mono(es, es2, n, a, b);
    }
    assert(has_edge(es2, u, v));
    if connected(es, n, a, u) && connected(es, n, v, b) {
        lemma_connected_mono(es, es2, n, a, u);
        lemma_connected_mono(es, es2, n, v, b);
        lemma_connected_edge(es2, n, u, v);
        lemma_connected_trans(es2, n, a, u, v);
        lemma_connected_trans(es2, n, a, v, b);
    }
    if connected(es, n, a, v) && connected(es, n, u, b) {
        lemma_connected_mono(es, es2, n, a, v);
        lemma_connected_mono(es, es2, n, u, b);
        lemma_connected_edge(es2, n, v, u);
        lemma_connected_trans(es2, n, a, v, u);
        lemma_connected_trans(es2, n, a, u, b);
    }
}

/// A cycle pair other than the one at `k` is never `{u, v}` when the
/// vertices at `k` and `k + 1` are exactly `u` and `v`: cycle vertices
/// are distinct, so `u` and `v` each occur once.
proof fn lemma_cycle_pair_unique(p: Seq<int>, k: int, u: int, v: int, x: int, y: int, j: int)
    requires
        forall|k1: int, k2: int| 0 <= k1 < k2 < p.len() ==> p[k1] != p[k2],
        0 <= k < p.len() - 1,
        p[k] == u,
        p[k + 1] == v,
        // the pair at j: internal when j < len - 1, else the wrap pair
        0 <= j < p.len(),
        j != k,
        x == p[j],
        y == (if j < p.len() - 1 {
            p[j + 1]
        } else {
            p[0]
        }),
        j == p.len() - 1 ==> p.len() >= 3,
    ensures
        !(x == u && y == v),
        !(x == v && y == u),
{
    if j < p.len() - 1 {
        if x == u {
            assert(p[j] == p[k]);
            assert(j == k);
        }
        if x == v && y == u {
            assert(j == k + 1);
            assert(p[j + 1] == p[k]);
        }
    } else {
        // wrap pair (p[len-1], p[0])
        if x == u {
            assert(j == k);
        }
        if x == v {
            assert(j == k + 1);
            assert(j == p.len() - 1 && k + 1 <= p.len() - 1);
        }
    }
}

/// Inserting an edge between two vertices in different components keeps
/// the graph acyclic.
#[verifier::rlimit(100)]
proof fn lemma_acyclic_insert(es: Set<(int, int)>, n: int, u: int, v: int)
    requires
        acyclic(es, n),
        !connected(es, n, u, v),
        0 <= u < n,
        0 <= v < n,
        u != v,
    ensures
        acyclic(es.insert((u, v)), n),
{
    let es2 = es.insert((u, v));
    assert forall|p: Seq<int>| !is_simple_cycle(es2, n, p) by {
        if is_simple_cycle(es2, n, p) {
            lemma_cycle_transfer(es, n, u, v, p);
        }
    }
}

/// A simple cycle of the extended graph either already was a cycle of the
/// old graph, or removing the one use of the new edge leaves a walk
/// joining `u` to `v` in the old graph.
proof fn lemma_cycle_transfer(es: Set<(int, int)>, n: int, u: int, v: int, p: Seq<int>)
    requires
        0 <= u < n,
        0 <= v < n,
        u != v,
        is_simple_cycle(es.insert((u, v)), n, p),
    ensures
        (exists|q: Seq<int>| is_simple_cycle(es, n, q)) || connected(es, n, u, v),
{
    let es2 = es.insert((u, v));
    let len = p.len() as int;
    if (forall|k: int| 0 <= k < len - 1 ==> has_edge(es, #[trigger] p[k], p[k + 1])) && has_edge(
        es,
        p[len - 1],
        p[0],
    ) {
        assert(is_simple_cycle(es, n, p));
    } else if exists|k: int| 0 <= k < len - 1 && !has_edge(es, #[trigger] p[k], p[k + 1]) {
        let k = choose|k: int| 0 <= k < len - 1 && !has_edge(es, #[trigger] p[k], p[k + 1]);
        assert(has_edge(es2, p[k], p[k + 1]));
        assert((p[k] == u && p[k + 1] == v) || (p[k] == v && p[k + 1] == u));
        // rotate the cycle so the new edge is the missing link
        let q = p.subrange(k + 1, len) + p.subrange(0, k + 1);
        assert(q.len() == len);
        assert(q[0] == p[k + 1]);
        assert(q[q.len() - 1] == p[k]);
        assert forall|i: int| 0 <= i < q.len() implies 0 <= #[trigger] q[i] < n by {
            if i < len - k - 1 {
                assert(q[i] == p[k + 1 + i]);
            } else {
                assert(q[i] == p[i - (len - k - 1)]);
            }
        }
        assert forall|i: int| 0 <= i < q.len() - 1 implies has_edge(es, #[trigger] q[i], q[i + 1])
            by {
            if i < len - k - 2 {
                assert(q[i] == p[k + 1 + i] && q[i + 1] == p[k + 2 + i]);
                if p[k] == u {
                    lemma_cycle_pair_unique(p, k, u, v, q[i], q[i + 1], k + 1 + i);
                } else {
                    lemma_cycle_pair_unique(p, k, v, u, q[i], q[i + 1], k + 1 + i);
                }
                assert(has_edge(es2, q[i], q[i + 1]));
            } else if i == len - k - 2 {
                assert(q[i] == p[len - 1] && q[i + 1] == p[0]);
                if p[k] == u {
                    lemma_cycle_pair_unique(p, k, u, v, p[len - 1], p[0], len - 1);
                } else {
                    lemma_cycle_pair_unique(p, k, v, u, p[len - 1], p[0], len - 1);
                }
                assert(has_edge(es2, p[len - 1], p[0]));
            } else {
                let j = i - (len - k - 1);
                assert(q[i] == p[j] && q[i + 1] == p[j + 1]);
                if p[k] == u {
                    lemma_cycle_pair_unique(p, k, u, v, q[i], q[i + 1], j);
                } else {
                    lemma_cycle_pair_unique(p, k, v, u, q[i], q[i + 1], j);
                }
                assert(has_edge(es2, p[j], p[j + 1]));
            }
        }
        assert(is_walk(es, n, q, p[k + 1], p[k]));
        assert(connected(es, n, p[k + 1], p[k]));
        if p[k] == u {
            lemma_connected_sym(es, n, v, u);
        }
    } else {
        // only the wrap pair uses the new edge
        assert(!has_edge(es, p[len - 1], p[0]));
        assert(has_edge(es2, p[len - 1], p[0]));
        assert((p[len - 1] == u && p[0] == v) || (p[len - 1] == v && p[0] == u));
        assert(is_walk(es, n, p, p[0], p[len - 1]));
        assert(connected(es, n, p[0], p[len - 1]));
        if p[0] == v {
            lemma_connected_sym(es, n, v, u);
        }
    }
}

// ---------------------------------------------------------------------
// Boruvka's minimum-spanning-tree construction.
// ---------------------------------------------------------------------

/// `b` appears in the adjacency list of `a`.
pub open spec fn adjacent(adj: Seq<Vec<usize>>, a: int, b: int) -> bool {
    &&& 0 <= a < adj.len()
    &&& 0 <= b < adj.len()
    &&& adj[a]@.contains(b as usize)
}

/// The symmetric edge set induced by the adjacency lists.
pub open spec fn mst_edges(adj: Seq<Vec<usize>>) -> Set<(int, int)> {
    Set::new(|e: (int, int)| adjacent(adj, e.0, e.1))
}

/// Sum of the lengths of the first `i` adjacency lists.
pub open spec fn degree_sum(adj: Seq<Vec<usize>>, i: int) -> int
    decreases i,
{
    if i <= 0 {
        0
    } else {
        degree_sum(adj, i - 1) + adj[i - 1]@.len()
    }
}

/// `degree_sum` depends only on the first `i` lists.
proof fn lemma_degree_sum_prefix(s1: Seq<Vec<usize>>, s2: Seq<Vec<usize>>, i: int)
    requires
        forall|k: int| 0 <= k < i ==> s1[k]@ == (#[trigger] s2[k])@,
    ensures
        degree_sum(s1, i) == degree_sum(s2, i),
    decreases i,
{
    if i > 0 {
        lemma_degree_sum_prefix(s1, s2, i - 1);
    }
}

/// Changing exactly two adjacency lists changes `degree_sum` by the
/// change of those two lists' lengths.
proof fn lemma_degree_sum_two_rows(
    s1: Seq<Vec<usize>>,
    s2: Seq<Vec<usize>>,
    eu: int,
    ev: int,
    i: int,
)
    requires
        s1.len() == s2.len(),
        0 <= eu < s1.len(),
        0 <= ev < s1.len(),
        eu != ev,
        i <= s1.len(),
        forall|k: int| 0 <= k < s1.len() && k != eu && k != ev ==> (#[trigger] s2[k])@ == s1[k]@,
    ensures
        degree_sum(s2, i) == degree_sum(s1, i) + (if eu < i {
            s2[eu]@.len() - s1[eu]@.len()
        } else {
            0
        }) + (if ev < i {
            s2[ev]@.len() - s1[ev]@.len()
        } else {
            0
        }),
    decreases i,
{
    if i > 0 {
        lemma_degree_sum_two_rows(s1, s2, eu, ev, i - 1);
    }
}

/// Graphs with the same edges have the same walks, connectivity and
/// cycles.
proof fn lemma_edge_equiv(e1: Set<(int, int)>, e2: Set<(int, int)>, n: int)
    requires
        forall|a: int, b: int| #[trigger] has_edge(e1, a, b) == has_edge(e2, a, b),
    ensures
        forall|a: int, b: int| #[trigger] connected(e1, n, a, b) == connected(e2, n, a, b),
        acyclic(e1, n) == acyclic(e2, n),
{
    assert forall|a: int, b: int| #[trigger] connected(e1, n, a, b) == connected(e2, n, a, b) by {
        if connected(e1, n, a, b) {
            let p = choose|p: Seq<int>| is_walk(e1, n, p, a, b);
            assert(is_walk(e2, n, p, a, b));
        }
        if connected(e2, n, a, b) {
            let p = choose|p: Seq<int>| is_walk(e2, n, p, a, b);
            assert(is_walk(e1, n, p, a, b));
        }
    }
    assert forall|p: Seq<int>| #[trigger] is_simple_cycle(e1, n, p) == is_simple_cycle(e2, n, p)
        by {
        if is_simple_cycle(e1, n, p) {
            assert forall|k: int| 0 <= k < p.len() - 1 implies has_edge(
                e2,
                #[trigger] p[k],
                p[k + 1],
            ) by {
                assert(has_edge(e1, p[k], p[k + 1]));
            }
            assert(has_edge(e1, p[p.len() - 1], p[0]));
            assert(is_simple_cycle(e2, n, p));
        }
        if is_simple_cycle(e2, n, p) {
            assert forall|k: int| 0 <= k < p.len() - 1 implies has_edge(
                e1,
                #[trigger] p[k],
                p[k + 1],
            ) by {
                assert(has_edge(e2, p[k], p[k + 1]));
            }
            assert(has_edge(e2, p[p.len() - 1], p[0]));
            assert(is_simple_cycle(e1, n, p));
        }
    }
    assert(acyclic(e1, n) ==> acyclic(e2, n)) by {
        if acyclic(e1, n) {
            assert forall|p: Seq<int>| !is_simple_cycle(e2, n, p) by {
                assert(!is_simple_cycle(e1, n, p));
            }
        }
    }
    assert(acyclic(e2, n) ==> acyclic(e1, n)) by {
        if acyclic(e2, n) {
            assert forall|p: Seq<int>| !is_simple_cycle(e1, n, p) by {
                assert(is_simple_cycle(e1, n, p) == is_simple_cycle(e2, n, p));
            }
        }
    }
}

/// No two distinct vertices are connected over an empty edge set.
proof fn lemma_connected_empty(n: int, a: int, b: int)
    requires
        connected(Set::empty(), n, a, b),
    ensures
        a == b,
{
    let p = choose|p: Seq<int>| is_walk(Set::<(int, int)>::empty(), n, p, a, b);
    if p.len() >= 2 {
        assert(has_edge(Set::empty(), p[0], p[1]));
    }
}

/// Appending to a sequence adds exactly the appended element to its
/// membership.
proof fn lemma_push_contains(s: Seq<usize>, x: usize, y: usize)
    ensures
        s.push(x).contains(y) <==> (s.contains(y) || y == x),
{
    if s.push(x).contains(y) {
        let k = choose|k: int| 0 <= k < s.push(x).len() && s.push(x)[k] == y;
        if k < s.len() {
            assert(s[k] == y);
        }
    }
    if s.contains(y) {
        let k = choose|k: int| 0 <= k < s.len() && s[k] == y;
        assert(s.push(x)[k] == y);
    }
    if y == x {
        assert(s.push(x)[s.len() as int] == x);
    }
}

/// The roots of the forest.
pub open spec fn roots_set(p: Seq<usize>) -> Set<int> {
    Set::new(|i: int| 0 <= i < p.len() && p[i] == i)
}

/// The set of roots is finite and no larger than the forest.
proof fn lemma_roots_finite(p: Seq<usize>)
    ensures
        roots_set(p).finite(),
        roots_set(p).len() <= p.len(),
{
    lemma_int_range(0, p.len() as int);
    lemma_len_subset(roots_set(p), set_int_range(0, p.len() as int));
}

/// The weight matrix describes a complete undirected graph: square, with
/// an entry for every pair of distinct regions.
pub open spec fn graph_complete(weights: Seq<Vec<Option<(i64, Direction)>>>) -> bool {
    &&& weights.len() >= 1
    &&& forall|u: int| 0 <= u < weights.len() ==> (#[trigger] weights[u])@.len() == weights.len()
    &&& forall|u: int, v: int|
        0 <= u < weights.len() && 0 <= v < weights.len() ==> (((#[trigger] weights[u]@[v])
            is Some) <==> u != v)
}

/// The state carried between rounds of the Boruvka construction: the
/// disjoint-set forest mirrors the connectivity of the edges collected so
/// far, the adjacency lists mirror that edge set, the edge count matches
/// the number of merges performed, and the collected edges stay acyclic.
pub open spec fn boruvka_inv(
    n: int,
    parent: Seq<usize>,
    rank: Seq<usize>,
    result: Seq<Vec<usize>>,
    es: Set<(int, int)>,
    num_trees: int,
) -> bool {
    &&& parent.len() == n
    &&& rank.len() == n
    &&& result.len() == n
    &&& parent_wf(parent)
    &&& num_trees >= 1
    &&& forall|k: int| 0 <= k < n ==> (#[trigger] rank[k]) + num_trees <= n
    &&& es.finite()
    &&& es.len() == n - num_trees
    &&& forall|e: (int, int)| #[trigger]
        es.contains(e) ==> 0 <= e.0 < n && 0 <= e.1 < n && e.0 != e.1
    &&& forall|a: int, b: int|
        #![trigger adjacent(result, a, b)]
        #![trigger has_edge(es, a, b)]
        adjacent(result, a, b) <==> has_edge(es, a, b)
    &&& forall|u: int, k: int|
        0 <= u < n && 0 <= k < result[u]@.len() ==> ((#[trigger] result[u]@[k]) as int) < n
    &&& degree_sum(result, n) == 2 * es.len()
    &&& forall|a: int, b: int|
        #![trigger same_set(parent, a, b)]
        #![trigger connected(es, n, a, b)]
        0 <= a < n && 0 <= b < n ==> (same_set(parent, a, b) <==> connected(es, n, a, b))
    &&& acyclic(es, n)
    &&& roots_set(parent).len() == num_trees
}

/// A finite set with at least two elements holds two distinct elements.
proof fn lemma_two_elements(s: Set<int>)
    requires
        s.finite(),
        s.len() >= 2,
    ensures
        exists|x: int, y: int| s.contains(x) && s.contains(y) && x != y,
{
    assert(exists|x: int| s.contains(x)) by {
        if forall|x: int| !s.contains(x) {
            assert(s =~= Set::empty());
        }
    }
    let x = choose|x: int| s.contains(x);
    let s2 = s.remove(x);
    assert(s2.len() == s.len() - 1);
    assert(exists|y: int| s2.contains(y)) by {
        if forall|y: int| !s2.contains(y) {
            assert(s2 =~= Set::empty());
        }
    }
    let y = choose|y: int| s2.contains(y);
    assert(s.contains(y) && y != x);
}

/// An edge chosen between two different components crosses the collected
/// edge set: its endpoints differ, are not yet connected, and the edge is
/// new; and at least two components remain.
proof fn lemma_merge_edge(
    p: Seq<usize>,
    rank: Seq<usize>,
    result: Seq<Vec<usize>>,
    es: Set<(int, int)>,
    n: int,
    num_trees: int,
    eu: int,
    ev: int,
)
    requires
        boruvka_inv(n, p, rank, result, es, num_trees),
        0 <= eu < n,
        0 <= ev < n,
        !same_set(p, eu, ev),
    ensures
        eu != ev,
        !connected(es, n, eu, ev),
        !es.contains((eu, ev)),
        num_trees >= 2,
        forall|k: int| 0 <= k < n ==> (#[trigger] rank[k]) < n,
        0 <= root_of(p, eu) < n,
        0 <= root_of(p, ev) < n,
        p[root_of(p, eu)] == root_of(p, eu),
        p[root_of(p, ev)] == root_of(p, ev),
{
    lemma_root_of(p, eu);
    lemma_root_of(p, ev);
    assert(!connected(es, n, eu, ev));
    if eu == ev {
        assert(same_set(p, eu, ev));
    }
    if es.contains((eu, ev)) {
        assert(has_edge(es, eu, ev));
        lemma_connected_edge(es, n, eu, ev);
    }
    let r1 = root_of(p, eu);
    let r2 = root_of(p, ev);
    lemma_root_idempotent(p, r1);
    lemma_root_idempotent(p, r2);
    assert(roots_set(p).contains(r1));
    assert(roots_set(p).contains(r2));
    lemma_roots_finite(p);
    lemma_len_subset(Set::empty().insert(r1).insert(r2), roots_set(p));
    assert(Set::empty().insert(r1).insert(r2).len() == 2);
}

/// Re-establishes the round invariant after one merge: the union of the
/// two components, the insertion of the crossing edge, and the two
/// adjacency-list pushes fit together.
#[verifier::rlimit(100)]
proof fn lemma_merge_update(
    p1: Seq<usize>,
    p2: Seq<usize>,
    rank1: Seq<usize>,
    rank2: Seq<usize>,
    result1: Seq<Vec<usize>>,
    result2: Seq<Vec<usize>>,
    es: Set<(int, int)>,
    n: int,
    trees1: int,
    trees2: int,
    eu: int,
    ev: int,
    set1: int,
    set2: int,
)
    requires
        boruvka_inv(n, p1, rank1, result1, es, trees1),
        n <= usize::MAX,
        0 <= eu < n,
        0 <= ev < n,
        eu != ev,
        !same_set(p1, eu, ev),
        set1 == root_of(p1, eu),
        set2 == root_of(p1, ev),
        p1[set1] == set1,
        p1[set2] == set2,
        trees2 == trees1 - 1,
        trees1 >= 2,
        // what union_set guarantees
        p2.len() == p1.len(),
        parent_wf(p2),
        forall|a: int, b: int|
            0 <= a < n && 0 <= b < n ==> ((#[trigger] same_set(p2, a, b)) <==> (same_set(
                p1,
                a,
                b,
            ) || (same_set(p1, a, set1) && same_set(p1, b, set2)) || (same_set(p1, a, set2)
                && same_set(p1, b, set1)))),
        (forall|a: int|
            0 <= a < n ==> ((#[trigger] p2[a] == a) <==> (p1[a] == a && a != set1))) || (forall|
            a: int,
        |
            0 <= a < n ==> ((#[trigger] p2[a] == a) <==> (p1[a] == a && a != set2))),
        rank2.len() == rank1.len(),
        forall|k: int| 0 <= k < n ==> (#[trigger] rank2[k]) == rank1[k] || rank2[k] == rank1[k]
            + 1,
        // what the two adjacency pushes produce
        result2.len() == n,
        result2[eu]@ == result1[eu]@.push(ev as usize),
        result2[ev]@ == result1[ev]@.push(eu as usize),
        forall|k: int| 0 <= k < n && k != eu && k != ev ==> (#[trigger] result2[k])@
            == result1[k]@,
    ensures
        boruvka_inv(n, p2, rank2, result2, es.insert((eu, ev)), trees2),
{
    let es2 = es.insert((eu, ev));
    lemma_merge_edge(p1, rank1, result1, es, n, trees1, eu, ev);

    // edge count and validity
    assert(es2.len() == es.len() + 1);
    assert forall|e: (int, int)| #[trigger]
        es2.contains(e) implies 0 <= e.0 < n && 0 <= e.1 < n && e.0 != e.1 by {
        if e != ((eu, ev)) {
            assert(es.contains(e));
        }
    }

    // ranks keep their headroom
    assert forall|k: int| 0 <= k < n implies (#[trigger] rank2[k]) + trees2 <= n by {
        assert(rank1[k] + trees1 <= n);
    }

    // adjacency matches the extended edge set
    assert(es2.contains((eu, ev)));
    assert forall|a: int, b: int|
        #![trigger adjacent(result2, a, b)]
        #![trigger has_edge(es2, a, b)]
        adjacent(result2, a, b) <==> has_edge(es2, a, b) by {
        if 0 <= a < n && 0 <= b < n {
            lemma_push_contains(result1[eu]@, ev as usize, b as usize);
            lemma_push_contains(result1[ev]@, eu as usize, b as usize);
            assert(adjacent(result1, a, b) <==> has_edge(es, a, b));
            if adjacent(result2, a, b) {
                if a != eu && a != ev {
                    assert(result2[a]@ == result1[a]@);
                    assert(adjacent(result1, a, b));
                }
            }
            if has_edge(es2, a, b) {
                if has_edge(es, a, b) {
                    assert(adjacent(result1, a, b));
                    if a == eu {
                        assert(result2[a]@.contains(b as usize));
                    } else if a == ev {
                        assert(result2[a]@.contains(b as usize));
                    } else {
                        assert(result2[a]@ == result1[a]@);
                    }
                } else {
                    assert((a == eu && b == ev) || (a == ev && b == eu));
                }
            }
        } else {
            if adjacent(result2, a, b) {
            }
            if has_edge(es2, a, b) {
                if es2.contains((a, b)) {
                    assert(0 <= a < n && 0 <= b < n);
                } else {
                    assert(es2.contains((b, a)));
                    assert(0 <= a < n && 0 <= b < n);
                }
            }
        }
    }

    // adjacency entries stay in range
    assert forall|u: int, k: int|
        0 <= u < n && 0 <= k < result2[u]@.len() implies ((#[trigger] result2[u]@[k]) as int)
        < n by {
        if u == eu {
            if k < result1[eu]@.len() {
                assert(result1[u]@[k] == result2[u]@[k]);
            }
        } else if u == ev {
            if k < result1[ev]@.len() {
                assert(result1[u]@[k] == result2[u]@[k]);
            }
        } else {
            assert(result2[u]@ == result1[u]@);
        }
    }

    // the degree sum grows by two
    lemma_degree_sum_two_rows(result1, result2, eu, ev, n);
    assert(degree_sum(result2, n) == 2 * es2.len());

    // the forest matches connectivity of the extended edge set
    assert forall|a: int, b: int|
        #![trigger same_set(p2, a, b)]
        #![trigger connected(es2, n, a, b)]
        0 <= a < n && 0 <= b < n implies (same_set(p2, a, b) <==> connected(es2, n, a, b)) by {
        lemma_connected_insert(es, n, eu, ev, a, b);
        lemma_root_idempotent(p1, set1);
        lemma_root_idempotent(p1, set2);
        if connected(es, n, ev, b) {
            lemma_connected_sym(es, n, ev, b);
        }
        if connected(es, n, b, ev) {
            lemma_connected_sym(es, n, b, ev);
        }
        if connected(es, n, eu, b) {
            lemma_connected_sym(es, n, eu, b);
        }
        if connected(es, n, b, eu) {
            lemma_connected_sym(es, n, b, eu);
        }
    }

    // no cycle appears
    lemma_acyclic_insert(es, n, eu, ev);

    // exactly one root disappears
    lemma_roots_finite(p1);
    if forall|a: int| 0 <= a < n ==> ((#[trigger] p2[a] == a) <==> (p1[a] == a && a != set1)) {
        assert(roots_set(p2) =~= roots_set(p1).remove(set1));
        assert(roots_set(p1).contains(set1));
    } else {
        assert(roots_set(p2) =~= roots_set(p1).remove(set2));
        assert(roots_set(p1).contains(set2));
    }
    assert(roots_set(p2).len() == trees2);
}

/// When one component remains, the collected edges span the whole vertex
/// set, and the adjacency lists inherit connectivity and acyclicity.
proof fn lemma_spanning_conclusion(
    p: Seq<usize>,
    rank: Seq<usize>,
    result: Seq<Vec<usize>>,
    es: Set<(int, int)>,
    n: int,
)
    requires
        boruvka_inv(n, p, rank, result, es, 1),
    ensures
        forall|a: int, b: int| #[trigger] adjacent(result, a, b) ==> adjacent(result, b, a),
        forall|a: int| !adjacent(result, a, a),
        forall|a: int, b: int|
            0 <= a < n && 0 <= b < n ==> connected(mst_edges(result), n, a, b),
        acyclic(mst_edges(result), n),
        degree_sum(result, n) == 2 * (n - 1),
{
    lemma_roots_finite(p);
    assert forall|a: int, b: int|
        0 <= a < n && 0 <= b < n implies #[trigger] same_set(p, a, b) by {
        lemma_root_of(p, a);
        lemma_root_of(p, b);
        let ra = root_of(p, a);
        let rb = root_of(p, b);
        assert(roots_set(p).contains(ra));
        assert(roots_set(p).contains(rb));
        if ra != rb {
            lemma_len_subset(Set::empty().insert(ra).insert(rb), roots_set(p));
            assert(Set::empty().insert(ra).insert(rb).len() == 2);
        }
    }
    assert forall|a: int, b: int| #[trigger]
        has_edge(mst_edges(result), a, b) == has_edge(es, a, b) by {
        assert(mst_edges(result).contains((a, b)) == adjacent(result, a, b));
        assert(mst_edges(result).contains((b, a)) == adjacent(result, b, a));
    }
    lemma_edge_equiv(mst_edges(result), es, n);
    assert forall|a: int, b: int|
        0 <= a < n && 0 <= b < n implies connected(mst_edges(result), n, a, b) by {
        assert(same_set(p, a, b));
        assert(connected(es, n, a, b));
    }
    assert forall|a: int| !adjacent(result, a, a) by {
        if adjacent(result, a, a) {
            assert(has_edge(es, a, a));
        }
    }
}

/// Builds a minimum spanning tree over the complete region graph by
/// Boruvka's rounds: every component picks its cheapest outgoing edge,
/// the picked edges are merged, and rounds repeat until one component
/// remains.  The returned adjacency lists form a spanning tree: they are
/// symmetric, they join every pair of regions, they hold no cycle, and
/// they hold exactly `n - 1` undirected edges (so the list lengths sum to
/// `2 * (n - 1)`).
pub fn boruvka_mst(weights: &Vec<Vec<Option<(i64, Direction)>>>) -> (result: Vec<Vec<usize>>)
    requires
        graph_complete(weights@),
    ensures
        result@.len() == weights@.len(),
        forall|a: int, b: int| #[trigger] adjacent(result@, a, b) ==> adjacent(result@, b, a),
        forall|a: int| !adjacent(result@, a, a),
        forall|u: int, k: int|
            0 <= u < result@.len() && 0 <= k < result@[u]@.len() ==> ((
            #[trigger] result@[u]@[k]) as int) < result@.len(),
        forall|a: int, b: int|
            0 <= a < result@.len() && 0 <= b < result@.len() ==> connected(
                mst_edges(result@),
                result@.len() as int,
                a,
                b,
            ),
        acyclic(mst_edges(result@), result@.len() as int),
        degree_sum(result@, result@.len() as int) == 2 * (result@.len() - 1),
{
    let n = weights.len();
    let mut parent: Vec<usize> = Vec::new();
    let mut rank: Vec<usize> = Vec::new();
    let mut cheapest: Vec<Option<(usize, usize, i64)>> = Vec::new();
    let mut result: Vec<Vec<usize>> = Vec::new();
    let mut i: usize = 0;
    while i < n
        invariant
            0 <= i <= n,
            parent@.len() == i,
            rank@.len() == i,
            cheapest@.len() == i,
            result@.len() == i,
            forall|k: int| 0 <= k < i ==> (#[trigger] parent@[k]) == k,
            forall|k: int| 0 <= k < i ==> (#[trigger] rank@[k]) == 0,
            forall|k: int| 0 <= k < i ==> (#[trigger] result@[k])@.len() == 0,
            degree_sum(result@, i as int) == 0,
        decreases n - i,
    {
        let ghost pre = result@;
        parent.push(i);
        rank.push(0);
        cheapest.push(None);
        result.push(Vec::new());
        proof {
            lemma_degree_sum_prefix(result@, pre, i as int);
        }
        i = i + 1;
    }
    let mut num_trees: usize = n;
    let ghost mut es: Set<(int, int)> = Set::empty();

    proof {
        // the freshly built identity forest is well-formed ...
        assert(parent_ranked(parent@, Seq::new(n as nat, |k: int| 0int)));
        // ... every node is its own root ...
        assert(roots_set(parent@) =~= set_int_range(0, n as int));
        lemma_int_range(0, n as int);
        // ... it matches the empty edge set ...
        assert forall|a: int, b: int|
            #![trigger same_set(parent@, a, b)]
            #![trigger connected(es, n as int, a, b)]
            0 <= a < n && 0 <= b < n implies (same_set(parent@, a, b) <==> connected(
            es,
            n as int,
            a,
            b,
        )) by {
            lemma_root_idempotent(parent@, a);
            lemma_root_idempotent(parent@, b);
            if connected(es, n as int, a, b) {
                lemma_connected_empty(n as int, a, b);
            }
            if a == b {
                lemma_connected_refl(es, n as int, a);
            }
        }
        // ... and the empty edge set holds no cycle.
        assert forall|p: Seq<int>| !is_simple_cycle(es, n as int, p) by {
            if is_simple_cycle(es, n as int, p) {
                assert(has_edge(es, p[0], p[1]));
            }
        }
        assert(boruvka_inv(n as int, parent@, rank@, result@, es, num_trees as int));
    }

    while num_trees > 1
        invariant
            n == weights@.len(),
            graph_complete(weights@),
            cheapest@.len() == n,
            boruvka_inv(n as int, parent@, rank@, result@, es, num_trees as int),
        decreases num_trees,
    {
        let ghost trees_before = num_trees as int;

        // Reset the per-component cheapest-edge table.
        let mut x: usize = 0;
        while x < n
            invariant
                0 <= x <= n,
                cheapest@.len() == n,
                forall|k: int| 0 <= k < x ==> (#[trigger] cheapest@[k]) is None,
            decreases n - x,
        {
            cheapest.set(x, None);
            x = x + 1;
        }

        // Selection: every pair of regions in different components offers
        // its edge to both components.
        let mut u: usize = 0;
        while u < n
            invariant
                0 <= u <= n,
                n == weights@.len(),
                graph_complete(weights@),
                cheapest@.len() == n,
                boruvka_inv(n as int, parent@, rank@, result@, es, num_trees as int),
                forall|t: int| 0 <= t < n ==> ((#[trigger] cheapest@[t]) matches Some(e) ==> 0
                    <= e.0 < n && 0 <= e.1 < n && !same_set(parent@, e.0 as int, e.1 as int)),
                forall|u0: int, v0: int|
                    #![trigger same_set(parent@, u0, v0)]
                    0 <= u0 < u && 0 <= v0 < n && !same_set(parent@, u0, v0) ==> cheapest@[root_of(
                        parent@,
                        u0,
                    )] is Some,
            decreases n - u,
        {
            let mut v: usize = 0;
            while v < n
                invariant
                    0 <= v <= n,
                    0 <= u < n,
                    n == weights@.len(),
                    graph_complete(weights@),
                    cheapest@.len() == n,
                    boruvka_inv(n as int, parent@, rank@, result@, es, num_trees as int),
                    forall|t: int| 0 <= t < n ==> ((#[trigger] cheapest@[t]) matches Some(e) ==> 0
                        <= e.0 < n && 0 <= e.1 < n && !same_set(parent@, e.0 as int, e.1 as int)),
                    forall|u0: int, v0: int|
                        #![trigger same_set(parent@, u0, v0)]
                        0 <= u0 < n && 0 <= v0 < n && (u0 < u || (u0 == u && v0 < v)) && !same_set(
                            parent@,
                            u0,
                            v0,
                        ) ==> cheapest@[root_of(parent@, u0)] is Some,
                decreases n - v,
            {
                let ghost p_pre = parent@;
                let ghost old_cheapest = cheapest@;
                let entry = weights[u][v];
                match entry {
                    Some(pair) => {
                        let w = pair.0;
                        let set1 = find(&mut parent, u);
                        let set2 = find(&mut parent, v);
                        if set1 != set2 {
                            let better1 = match cheapest[set1] {
                                None => true,
                                Some(t) => t.2 > w,
                            };
                            if better1 {
                                cheapest.set(set1, Some((u, v, w)));
                            }
                            let better2 = match cheapest[set2] {
                                None => true,
                                Some(t) => t.2 > w,
                            };
                            if better2 {
                                cheapest.set(set2, Some((u, v, w)));
                            }
                            proof {
                                assert(set1 as int == root_of(p_pre, u as int));
                                assert(cheapest@[root_of(p_pre, u as int)] is Some);
                                assert(!same_set(p_pre, u as int, v as int)
                                    ==> cheapest@[root_of(p_pre, u as int)] is Some);
                                assert(forall|t: int|
                                    0 <= t < n && old_cheapest[t] is Some ==> (
                                    #[trigger] cheapest@[t]) is Some);
                            }
                        } else {
                            proof {
                                assert(same_set(p_pre, u as int, v as int));
                                assert(!same_set(p_pre, u as int, v as int)
                                    ==> cheapest@[root_of(p_pre, u as int)] is Some);
                                assert(forall|t: int|
                                    0 <= t < n && old_cheapest[t] is Some ==> (
                                    #[trigger] cheapest@[t]) is Some);
                            }
                        }
                    },
                    None => {
                        proof {
                            assert(u == v);
                            assert(same_set(p_pre, u as int, v as int));
                            assert(!same_set(p_pre, u as int, v as int)
                                ==> cheapest@[root_of(p_pre, u as int)] is Some);
                            assert(forall|t: int|
                                0 <= t < n && old_cheapest[t] is Some ==> (
                                #[trigger] cheapest@[t]) is Some);
                        }
                    },
                }
                proof {
                    assert forall|a: int, b: int|
                        #![trigger same_set(parent@, a, b)]
                        0 <= a < n && 0 <= b < n implies (same_set(parent@, a, b) == same_set(
                        p_pre,
                        a,
                        b,
                    )) by {}
                    assert(roots_set(parent@) =~= roots_set(p_pre));
                    assert forall|u0: int, v0: int|
                        #![trigger same_set(parent@, u0, v0)]
                        0 <= u0 < n && 0 <= v0 < n && (u0 < u || (u0 == u && v0 < v + 1))
                            && !same_set(parent@, u0, v0) implies cheapest@[root_of(
                        parent@,
                        u0,
                    )] is Some by {
                        assert(same_set(parent@, u0, v0) == same_set(p_pre, u0, v0));
                        assert(root_of(parent@, u0) == root_of(p_pre, u0));
                        if u0 == u && v0 == v {
                            assert(!same_set(p_pre, u as int, v as int));
                            assert(cheapest@[root_of(p_pre, u as int)] is Some);
                        } else {
                            lemma_root_of(p_pre, u0);
                            assert(!same_set(p_pre, u0, v0));
                            assert(old_cheapest[root_of(p_pre, u0)] is Some);
                            assert(cheapest@[root_of(p_pre, u0)] is Some);
                        }
                    }
                }
                v = v + 1;
            }
            u = u + 1;
        }

        // Merge: apply each component's chosen edge, skipping the stale
        // ones whose endpoints have meanwhile been merged.
        let ghost p_sel = parent@;
        let ghost mut did_union: bool = false;
        let mut node: usize = 0;
        while node < n
            invariant
                0 <= node <= n,
                n == weights@.len(),
                graph_complete(weights@),
                cheapest@.len() == n,
                boruvka_inv(n as int, parent@, rank@, result@, es, num_trees as int),
                (num_trees as int) <= trees_before,
                forall|t: int| 0 <= t < n ==> ((#[trigger] cheapest@[t]) matches Some(e) ==> 0
                    <= e.0 < n && 0 <= e.1 < n && !same_set(p_sel, e.0 as int, e.1 as int)),
                forall|u0: int, v0: int|
                    #![trigger same_set(p_sel, u0, v0)]
                    0 <= u0 < n && 0 <= v0 < n && !same_set(p_sel, u0, v0) ==> cheapest@[root_of(
                        p_sel,
                        u0,
                    )] is Some,
                !did_union ==> num_trees as int == trees_before,
                !did_union ==> (forall|y: int|
                    0 <= y < node ==> (#[trigger] cheapest@[y]) is None),
                !did_union ==> (forall|a: int, b: int|
                    #![trigger same_set(parent@, a, b)]
                    0 <= a < n && 0 <= b < n ==> same_set(parent@, a, b) == same_set(
                        p_sel,
                        a,
                        b,
                    )),
                did_union ==> (num_trees as int) < trees_before,
                roots_set(p_sel).len() == trees_before,
            decreases n - node,
        {
            let entry = cheapest[node];
            match entry {
                Some(t) => {
                    let eu = t.0;
                    let ev = t.1;
                    let ghost p_pre = parent@;
                    let set1 = find(&mut parent, eu);
                    let set2 = find(&mut parent, ev);
                    let ghost p_link = parent@;
                    proof {
                        assert(roots_set(p_link) =~= roots_set(p_pre));
                        assert forall|a: int, b: int|
                            #![trigger same_set(p_link, a, b)]
                            0 <= a < n && 0 <= b < n implies (same_set(p_link, a, b) == same_set(
                            p_pre,
                            a,
                            b,
                        )) by {}
                        assert(boruvka_inv(
                            n as int,
                            p_link,
                            rank@,
                            result@,
                            es,
                            num_trees as int,
                        ));
                    }
                    proof {
                        if !did_union {
                            assert(!same_set(p_sel, eu as int, ev as int));
                            assert(same_set(p_pre, eu as int, ev as int) == same_set(
                                p_sel,
                                eu as int,
                                ev as int,
                            ));
                            assert(set1 != set2);
                        }
                    }
                    if set1 != set2 {
                        proof {
                            assert(set1 as int == root_of(p_link, eu as int));
                            assert(set2 as int == root_of(p_link, ev as int));
                            assert(!same_set(p_link, eu as int, ev as int));
                            lemma_merge_edge(
                                p_link,
                                rank@,
                                result@,
                                es,
                                n as int,
                                num_trees as int,
                                eu as int,
                                ev as int,
                            );
                            assert(p_link[set1 as int] == set1);
                            assert(p_link[set2 as int] == set2);
                            lemma_root_idempotent(p_link, set1 as int);
                            lemma_root_idempotent(p_link, set2 as int);
                        }
                        let ghost trees_pre = num_trees as int;
                        let ghost rank_pre = rank@;
                        let ghost result_pre = result@;
                        union_set(&mut parent, &mut rank, set1, set2);
                        result[eu].push(ev);
                        result[ev].push(eu);
                        num_trees = num_trees - 1;
                        proof {
                            assert(result@[eu as int]@ == result_pre[eu as int]@.push(ev));
                            assert(result@[ev as int]@ == result_pre[ev as int]@.push(eu));
                            lemma_merge_update(
                                p_link,
                                parent@,
                                rank_pre,
                                rank@,
                                result_pre,
                                result@,
                                es,
                                n as int,
                                trees_pre,
                                num_trees as int,
                                eu as int,
                                ev as int,
                                set1 as int,
                                set2 as int,
                            );
                            es = es.insert((eu as int, ev as int));
                            did_union = true;
                        }
                    }
                },
                None => {},
            }
            node = node + 1;
        }
        proof {
            if !did_union {
                lemma_roots_finite(p_sel);
                lemma_two_elements(roots_set(p_sel));
                let (r1, r2) = choose|r1: int, r2: int|
                    roots_set(p_sel).contains(r1) && roots_set(p_sel).contains(r2) && r1 != r2;
                lemma_root_idempotent(p_sel, r1);
                lemma_root_idempotent(p_sel, r2);
                assert(!same_set(p_sel, r1, r2));
                assert(cheapest@[root_of(p_sel, r1)] is Some);
                assert(false);
            }
        }
    }
    proof {
        lemma_spanning_conclusion(parent@, rank@, result@, es, n as int);
    }
    result
}

} // verus!
