//! What a phase of the labeling does to the partition that a label forest
//! stands for: two cells share a tree afterwards exactly if a walk leads from
//! one to the other, each step of which stays in one tree of the forest
//! before or crosses one of the edges that the phase joins.

use crate::forest::{
    descends, is_foreground, is_forest, lemma_descends_transitive, lemma_root_is_root,
    lemma_united, root, same_tree, united, united_root,
};
use vstd::prelude::*;

verus! {

/// The edge set holds the pair in one direction or the other.
pub open spec fn has_edge(e: Set<(int, int)>, p: int, q: int) -> bool {
    e.contains((p, q)) || e.contains((q, p))
}

/// Every edge joins two foreground cells of the array.
pub open spec fn edges_in(l: Seq<i32>, e: Set<(int, int)>) -> bool {
    forall|p: int, q: int| #[trigger]
        e.contains((p, q)) ==> is_foreground(l, p) && is_foreground(l, q)
}

/// One step of a walk: within a tree, or along an edge.
pub open spec fn linked(l: Seq<i32>, e: Set<(int, int)>, p: int, q: int) -> bool {
    same_tree(l, p, q) || has_edge(e, p, q)
}

/// Cell `k` of the walk and the cell after it are one step apart.
pub open spec fn step_ok(l: Seq<i32>, e: Set<(int, int)>, w: Seq<int>, k: int) -> bool {
    linked(l, e, w[k], w[k + 1])
}

/// A walk starts at a foreground cell and goes on by steps.
pub open spec fn is_walk(l: Seq<i32>, e: Set<(int, int)>, w: Seq<int>) -> bool {
    &&& w.len() > 0
    &&& is_foreground(l, w[0])
    &&& forall|k: int| 0 <= k < w.len() - 1 ==> #[trigger] step_ok(l, e, w, k)
}

/// Some walk leads from cell `i` to cell `j`.
pub open spec fn joined(l: Seq<i32>, e: Set<(int, int)>, i: int, j: int) -> bool {
    exists|w: Seq<int>| #[trigger] is_walk(l, e, w) && w[0] == i && w.last() == j
}

/// The forest `after` is the forest `before` with its trees made one along
/// the edges of `e`, and along nothing else: no label has grown, the
/// background is the same, and two cells share a tree afterwards exactly if
/// they are joined.
pub open spec fn merges(before: Seq<i32>, e: Set<(int, int)>, after: Seq<i32>) -> bool {
    &&& is_forest(after)
    &&& descends(before, after)
    &&& forall|i: int, j: int| #[trigger] same_tree(after, i, j) ==> joined(before, e, i, j)
    &&& forall|i: int, j: int| #[trigger] joined(before, e, i, j) ==> same_tree(after, i, j)
}

/// A foreground cell is joined to itself.
pub proof fn lemma_joined_reflexive(l: Seq<i32>, e: Set<(int, int)>, i: int)
    requires
        is_foreground(l, i),
    ensures
        joined(l, e, i, i),
{
    let w = seq![i];
    assert(is_walk(l, e, w));
}

/// One step joins its two ends.
pub proof fn lemma_joined_by_step(l: Seq<i32>, e: Set<(int, int)>, p: int, q: int)
    requires
        is_foreground(l, p),
        linked(l, e, p, q),
    ensures
        joined(l, e, p, q),
{
    let w = seq![p, q];
    assert forall|k: int| 0 <= k < w.len() - 1 implies #[trigger] step_ok(l, e, w, k) by {
        assert(w[0] == p && w[1] == q);
    }
    assert(is_walk(l, e, w));
}

/// Two walks that meet make one walk.
pub proof fn lemma_joined_transitive(l: Seq<i32>, e: Set<(int, int)>, i: int, j: int, k: int)
    requires
        joined(l, e, i, j),
        joined(l, e, j, k),
    ensures
        joined(l, e, i, k),
{
    let u = choose|w: Seq<int>| #[trigger] is_walk(l, e, w) && w[0] == i && w.last() == j;
    let v = choose|w: Seq<int>| #[trigger] is_walk(l, e, w) && w[0] == j && w.last() == k;
    let w = u + v.subrange(1, v.len() as int);
    assert forall|n: int| 0 <= n < w.len() - 1 implies #[trigger] step_ok(l, e, w, n) by {
        if n < u.len() - 1 {
            assert(step_ok(l, e, u, n));
        } else {
            let m = n - (u.len() - 1);
            assert(step_ok(l, e, v, m));
            assert(w[n] == v[m]);
            assert(w[n + 1] == v[m + 1]);
        }
    }
    assert(is_walk(l, e, w));
    assert(w[0] == i);
    assert(w.last() == k);
}

/// A walk stays a walk when edges are added.
pub proof fn lemma_joined_monotone(
    l: Seq<i32>,
    e: Set<(int, int)>,
    f: Set<(int, int)>,
    i: int,
    j: int,
)
    requires
        joined(l, e, i, j),
        e.subset_of(f),
    ensures
        joined(l, f, i, j),
{
    let w = choose|w: Seq<int>| #[trigger] is_walk(l, e, w) && w[0] == i && w.last() == j;
    assert forall|n: int| 0 <= n < w.len() - 1 implies #[trigger] step_ok(l, f, w, n) by {
        assert(step_ok(l, e, w, n));
    }
    assert(is_walk(l, f, w));
}

/// Where every step of a walk joins its ends in another forest with other
/// edges, the walk's two ends are joined there.
pub proof fn lemma_walk_carries_over(
    l: Seq<i32>,
    e: Set<(int, int)>,
    w: Seq<int>,
    m: Seq<i32>,
    f: Set<(int, int)>,
)
    requires
        is_walk(l, e, w),
        is_foreground(m, w[0]),
        forall|p: int, q: int| #[trigger] linked(l, e, p, q) ==> joined(m, f, p, q),
    ensures
        joined(m, f, w[0], w.last()),
    decreases w.len(),
{
    if w.len() == 1 {
        lemma_joined_reflexive(m, f, w[0]);
    } else {
        let u = w.drop_last();
        assert forall|n: int| 0 <= n < u.len() - 1 implies #[trigger] step_ok(l, e, u, n) by {
            assert(step_ok(l, e, w, n));
        }
        lemma_walk_carries_over(l, e, u, m, f);
        let n = w.len() - 2;
        assert(step_ok(l, e, w, n));
        assert(linked(l, e, w[n], w[n + 1]));
        lemma_joined_transitive(m, f, w[0], w[n], w[n + 1]);
    }
}

/// Where every step of a walk stays inside one tree of another forest, the
/// walk's two ends share a tree there.
pub proof fn lemma_walk_stays_in_tree(l: Seq<i32>, e: Set<(int, int)>, w: Seq<int>, m: Seq<i32>)
    requires
        is_walk(l, e, w),
        is_foreground(m, w[0]),
        forall|p: int, q: int| #[trigger] linked(l, e, p, q) ==> same_tree(m, p, q),
    ensures
        same_tree(m, w[0], w.last()),
    decreases w.len(),
{
    if w.len() > 1 {
        let u = w.drop_last();
        assert forall|n: int| 0 <= n < u.len() - 1 implies #[trigger] step_ok(l, e, u, n) by {
            assert(step_ok(l, e, w, n));
        }
        lemma_walk_stays_in_tree(l, e, u, m);
        let n = w.len() - 2;
        assert(step_ok(l, e, w, n));
        assert(linked(l, e, w[n], w[n + 1]));
    }
}

/// A forest with the same roots as another, in which no label has grown,
/// merges it along no edge at all.
pub proof fn lemma_same_roots_merge_nothing(before: Seq<i32>, after: Seq<i32>)
    requires
        is_forest(after),
        descends(before, after),
        forall|k: int| root(after, k) == root(before, k),
    ensures
        merges(before, Set::<(int, int)>::empty(), after),
{
    let e = Set::<(int, int)>::empty();
    assert forall|i: int, j: int| #[trigger] same_tree(after, i, j) implies joined(
        before,
        e,
        i,
        j,
    ) by {
        assert(same_tree(before, i, j));
        lemma_joined_by_step(before, e, i, j);
    }
    assert forall|i: int, j: int| #[trigger] joined(before, e, i, j) implies same_tree(
        after,
        i,
        j,
    ) by {
        let w = choose|w: Seq<int>| #[trigger] is_walk(before, e, w) && w[0] == i && w.last() == j;
        assert forall|p: int, q: int| #[trigger] linked(before, e, p, q) implies same_tree(
            after,
            p,
            q,
        ) by {
            assert(same_tree(before, p, q));
        }
        lemma_walk_stays_in_tree(before, e, w, after);
    }
}

/// What a forest is merged along decides the root of every cell: two forests
/// that merge the same forest along the same edges have the same roots, in
/// whatever order the edges were joined.
pub proof fn lemma_merges_pins_roots(
    before: Seq<i32>,
    e: Set<(int, int)>,
    one: Seq<i32>,
    other: Seq<i32>,
    k: int,
)
    requires
        merges(before, e, one),
        merges(before, e, other),
    ensures
        root(one, k) == root(other, k),
{
    if 0 <= k < before.len() {
        assert(one[k] <= before[k] && (one[k] < 0 <==> before[k] < 0));
        assert(other[k] <= before[k] && (other[k] < 0 <==> before[k] < 0));
        if before[k] >= 0 {
            let r = root(one, k);
            let s = root(other, k);
            lemma_root_is_root(one, k);
            lemma_root_is_root(other, k);
            assert(same_tree(one, k, r));
            assert(joined(before, e, k, r));
            assert(same_tree(other, k, r));
            lemma_root_is_root(other, r);
            assert(same_tree(other, k, s));
            assert(joined(before, e, k, s));
            assert(same_tree(one, k, s));
            lemma_root_is_root(one, s);
        }
    }
}

/// Uniting two pairs of cells gives every cell the same root in whichever
/// order the pairs are taken, and whichever cell of a pair is named first.
pub proof fn lemma_unite_order_is_free(l: Seq<i32>, a: int, b: int, c: int, d: int, k: int)
    requires
        is_forest(l),
        is_foreground(l, a),
        is_foreground(l, b),
        is_foreground(l, c),
        is_foreground(l, d),
    ensures
        root(united(l, a, b), k) == root(united(l, b, a), k),
        root(united(united(l, a, b), c, d), k) == root(united(united(l, c, d), a, b), k),
{
    lemma_united(l, a, b);
    lemma_united(l, b, a);
    assert(root(united(l, a, b), k) == united_root(l, a, b, k));
    assert(root(united(l, b, a), k) == united_root(l, b, a, k));
    let ab = united(l, a, b);
    let cd = united(l, c, d);
    let one = set![(a, b)];
    let other = set![(c, d)];
    lemma_united_merges(l, a, b);
    lemma_united_merges(l, c, d);
    assert(ab[c] <= l[c] && (ab[c] < 0 <==> l[c] < 0));
    assert(ab[d] <= l[d] && (ab[d] < 0 <==> l[d] < 0));
    assert(cd[a] <= l[a] && (cd[a] < 0 <==> l[a] < 0));
    assert(cd[b] <= l[b] && (cd[b] < 0 <==> l[b] < 0));
    lemma_united_merges(ab, c, d);
    lemma_united_merges(cd, a, b);
    lemma_merges_compose(l, one, ab, other, united(ab, c, d));
    lemma_merges_compose(l, other, cd, one, united(cd, a, b));
    assert(one.union(other) =~= other.union(one));
    lemma_merges_pins_roots(l, one.union(other), united(ab, c, d), united(cd, a, b), k);
}

/// Two merges in a row are one merge along the edges of both.
pub proof fn lemma_merges_compose(
    first: Seq<i32>,
    e: Set<(int, int)>,
    second: Seq<i32>,
    f: Set<(int, int)>,
    third: Seq<i32>,
)
    requires
        merges(first, e, second),
        merges(second, f, third),
        edges_in(first, e),
        edges_in(first, f),
    ensures
        merges(first, e.union(f), third),
{
    let g = e.union(f);
    lemma_descends_transitive(first, second, third);
    assert forall|i: int, j: int| #[trigger] same_tree(third, i, j) implies joined(
        first,
        g,
        i,
        j,
    ) by {
        assert(joined(second, f, i, j));
        let w = choose|w: Seq<int>| #[trigger] is_walk(second, f, w) && w[0] == i && w.last() == j;
        assert forall|p: int, q: int| #[trigger] linked(second, f, p, q) implies joined(
            first,
            g,
            p,
            q,
        ) by {
            if same_tree(second, p, q) {
                assert(joined(first, e, p, q));
                lemma_joined_monotone(first, e, g, p, q);
            } else {
                assert(linked(first, g, p, q));
                lemma_joined_by_step(first, g, p, q);
            }
        }
        lemma_walk_carries_over(second, f, w, first, g);
    }
    assert forall|i: int, j: int| #[trigger] joined(first, g, i, j) implies same_tree(
        third,
        i,
        j,
    ) by {
        let w = choose|w: Seq<int>| #[trigger] is_walk(first, g, w) && w[0] == i && w.last() == j;
        assert forall|p: int, q: int| #[trigger] linked(first, g, p, q) implies same_tree(
            third,
            p,
            q,
        ) by {
            if same_tree(first, p, q) || has_edge(e, p, q) {
                assert(linked(first, e, p, q));
                lemma_joined_by_step(first, e, p, q);
                assert(same_tree(second, p, q));
            }
            assert(linked(second, f, p, q));
            lemma_joined_by_step(second, f, p, q);
        }
        lemma_walk_stays_in_tree(first, g, w, third);
    }
}

/// Uniting the trees of two foreground cells merges the forest along the one
/// edge between them.
pub proof fn lemma_united_merges(l: Seq<i32>, a: int, b: int)
    requires
        is_forest(l),
        is_foreground(l, a),
        is_foreground(l, b),
    ensures
        merges(l, set![(a, b)], united(l, a, b)),
{
    let e = set![(a, b)];
    let m = united(l, a, b);
    lemma_united(l, a, b);
    lemma_root_is_root(l, a);
    lemma_root_is_root(l, b);
    assert(has_edge(e, a, b));
    assert forall|i: int, j: int| #[trigger] same_tree(m, i, j) implies joined(l, e, i, j) by {
        assert(m[i] >= 0 && m[j] >= 0);
        assert(root(m, i) == united_root(l, a, b, i));
        assert(root(m, j) == united_root(l, a, b, j));
        if root(l, i) == root(l, j) {
            assert(same_tree(l, i, j));
            lemma_joined_by_step(l, e, i, j);
        } else {
            let (x, y) = if root(l, i) == root(l, a) {
                (a, b)
            } else {
                (b, a)
            };
            assert(same_tree(l, i, x));
            assert(same_tree(l, y, j));
            lemma_joined_by_step(l, e, i, x);
            lemma_joined_by_step(l, e, x, y);
            lemma_joined_by_step(l, e, y, j);
            lemma_joined_transitive(l, e, i, x, y);
            lemma_joined_transitive(l, e, i, y, j);
        }
    }
    assert forall|i: int, j: int| #[trigger] joined(l, e, i, j) implies same_tree(m, i, j) by {
        let w = choose|w: Seq<int>| #[trigger] is_walk(l, e, w) && w[0] == i && w.last() == j;
        assert forall|p: int, q: int| #[trigger] linked(l, e, p, q) implies same_tree(m, p, q) by {
            assert(is_foreground(l, p) && is_foreground(l, q));
            assert(m[p] >= 0 && m[q] >= 0);
            assert(root(m, p) == united_root(l, a, b, p));
            assert(root(m, q) == united_root(l, a, b, q));
        }
        assert(m[w[0]] >= 0);
        lemma_walk_stays_in_tree(l, e, w, m);
    }
}

} // verus!
